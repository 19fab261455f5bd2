use sable_network::clock::EventClock;
use sable_network::codec::{decode_event, encode_event};
use sable_network::event::{Event, EventDetails};
use sable_network::ids::{ChannelId, EventId, MembershipId, MessageId, ObjectId, UserId};

fn id(server: u64, epoch: u64, seq: u64) -> EventId {
    EventId::new(server, epoch, seq)
}

fn same(a: &Event, b: &Event) {
    assert_eq!(a.id, b.id);
    assert_eq!(a.timestamp, b.timestamp);
    assert_eq!(a.target, b.target);
    assert_eq!(a.clock.entries(), b.clock.entries());
    assert_eq!(format!("{:?}", a.details), format!("{:?}", b.details));
}

#[test]
fn serialize_round_trip() {
    let mut clock = EventClock::new();
    clock.update(id(1, 2, 3));
    clock.update(id(4, 5, 6));
    let events = vec![
        Event {
            id: id(7, 1, 9),
            timestamp: -1234,
            clock,
            target: ObjectId::Message(MessageId(id(7, 1, 9))),
            details: EventDetails::NewMessage {
                source: UserId(id(1, 1, 1)),
                target: ObjectId::Channel(ChannelId(id(2, 2, 2))),
                text: b"hello world\r\n".to_vec(),
            },
        },
        Event {
            id: id(1, 1, 1),
            timestamp: i64::MIN,
            clock: EventClock::new(),
            target: ObjectId::User(UserId(id(1, 1, 1))),
            details: EventDetails::NewUser { nickname: b"".to_vec() },
        },
        Event {
            id: id(u64::MAX, 0, 0),
            timestamp: i64::MAX,
            clock: EventClock::new(),
            target: ObjectId::Membership(MembershipId { user: UserId(id(1, 1, 1)), channel: ChannelId(id(3, 3, 3)) }),
            details: EventDetails::ChannelJoin { user: UserId(id(1, 1, 1)), channel: ChannelId(id(3, 3, 3)) },
        },
        Event {
            id: id(2, 1, 1),
            timestamp: 0,
            clock: EventClock::new(),
            target: ObjectId::Server(1),
            details: EventDetails::ServerQuit { epoch: 3 },
        },
    ];
    for e in &events {
        let bytes = encode_event(e);
        let back = decode_event(&bytes).expect("decodes");
        same(e, &back);
    }
}

#[test]
fn wire_form_is_text() {
    let e = Event {
        id: id(1, 2, 3),
        timestamp: 5,
        clock: EventClock::new(),
        target: ObjectId::Server(9),
        details: EventDetails::NewServer { epoch: 4 },
    };
    assert_eq!(encode_event(&e), b"id 1 2 3 time 0 5 clock 0 target 4 9 details 7 4 ".to_vec());
}

#[test]
fn malformed_bytes_are_refused() {
    assert!(decode_event(b"id 1 2 3 time 0 5 clock 0 target 4 9 details 7 4 ").is_some());
    assert!(decode_event(b"").is_none());
    // no field names
    assert!(decode_event(b"1 2 3 0 5 0 4 9 7 4 ").is_none());
    // fields out of order
    assert!(decode_event(b"time 0 5 id 1 2 3 clock 0 target 4 9 details 7 4 ").is_none());
    // missing final space, trailing bytes
    assert!(decode_event(b"id 1 2 3 time 0 5 clock 0 target 4 9 details 7 4").is_none());
    assert!(decode_event(b"id 1 2 3 time 0 5 clock 0 target 4 9 details 7 4 extra").is_none());
    // bad sign, bad target kind
    assert!(decode_event(b"id 1 2 3 time 2 5 clock 0 target 4 9 details 7 4 ").is_none());
    assert!(decode_event(b"id 1 2 3 time 0 5 clock 0 target 9 9 details 7 4 ").is_none());
    // two clock entries for one server
    assert!(decode_event(b"id 1 2 3 time 0 5 clock 2 1 1 1 1 1 2 target 4 9 details 7 4 ").is_none());
    // a byte string shorter than its length says
    assert!(decode_event(b"id 1 2 3 time 0 5 clock 0 target 4 9 details 0 99 ab").is_none());
}

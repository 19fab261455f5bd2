use sable_network::clock::{ClockOrder, EventClock};
use sable_network::event::{Event, EventDetails};
use sable_network::event_log::EventLog;
use sable_network::ids::{EventId, ObjectId, UserId};

fn id(server: u64, epoch: u64, seq: u64) -> EventId {
    EventId::new(server, epoch, seq)
}

fn clock_of(ids: &[EventId]) -> EventClock {
    let mut c = EventClock::new();
    for i in ids {
        c.update(*i);
    }
    c
}

fn user_event(eid: EventId, clock: EventClock, nick: &str) -> Event {
    Event {
        id: eid,
        timestamp: 0,
        clock,
        target: ObjectId::User(UserId(eid)),
        details: EventDetails::NewUser { nickname: nick.as_bytes().to_vec() },
    }
}

#[test]
fn clock_contains_and_update() {
    let mut c = EventClock::new();
    assert!(!c.contains(&id(1, 1, 3)));
    c.update(id(1, 1, 5));
    assert!(c.contains(&id(1, 1, 3)));
    assert!(c.contains(&id(1, 1, 5)));
    assert!(!c.contains(&id(1, 1, 6)));
    assert!(!c.contains(&id(1, 2, 1)));
    assert!(!c.contains(&id(2, 1, 1)));
    c.update(id(1, 1, 2));
    assert_eq!(c.get(1), Some(id(1, 1, 5)));
    c.update(id(1, 2, 1));
    assert_eq!(c.get(1), Some(id(1, 2, 1)));
}

#[test]
fn clock_order_and_merge() {
    let a = clock_of(&[id(1, 1, 2)]);
    let b = clock_of(&[id(1, 1, 3), id(2, 1, 1)]);
    assert!(a.le(&b));
    assert!(!b.le(&a));
    let empty = EventClock::new();
    assert!(empty.le(&a));
    let mut m = clock_of(&[id(1, 1, 4)]);
    m.merge(&b);
    assert_eq!(m.get(1), Some(id(1, 1, 4)));
    assert_eq!(m.get(2), Some(id(2, 1, 1)));
    assert_eq!(m.get(3), None);
}

#[test]
fn accepted_event_is_seen() {
    let mut log = EventLog::new(9, 1, 8);
    let out = log.add(user_event(id(1, 1, 1), EventClock::new(), "a"));
    assert_eq!(out.len(), 1);
    assert_eq!(out[0].id, id(1, 1, 1));
    assert!(log.seen.contains(&id(1, 1, 1)));
}

#[test]
fn duplicate_is_dropped() {
    let mut log = EventLog::new(9, 1, 8);
    assert_eq!(log.add(user_event(id(1, 1, 1), EventClock::new(), "a")).len(), 1);
    assert_eq!(log.add(user_event(id(1, 1, 1), EventClock::new(), "a")).len(), 0);
    assert_eq!(log.pending.len(), 0);
}

#[test]
fn late_arriving_dependency() {
    let mut log = EventLog::new(9, 1, 8);
    let a = id(1, 1, 7);
    let b = id(2, 1, 1);
    let out = log.add(user_event(b, clock_of(&[a]), "b"));
    assert_eq!(out.len(), 0);
    assert_eq!(log.pending.len(), 1);
    let out = log.add(user_event(a, EventClock::new(), "a"));
    assert_eq!(out.len(), 2);
    assert_eq!(out[0].id, a);
    assert_eq!(out[1].id, b);
    assert_eq!(log.pending.len(), 0);
    assert!(log.seen.contains(&a));
    assert!(log.seen.contains(&b));
}

#[test]
fn ready_pending_events_leave_smallest_id_first() {
    let mut log = EventLog::new(9, 1, 8);
    let dep = id(1, 1, 1);
    assert_eq!(log.add(user_event(id(3, 1, 1), clock_of(&[dep]), "c")).len(), 0);
    assert_eq!(log.add(user_event(id(2, 1, 1), clock_of(&[dep]), "b")).len(), 0);
    let out = log.add(user_event(dep, EventClock::new(), "a"));
    let ids: Vec<EventId> = out.iter().map(|e| e.id).collect();
    assert_eq!(ids, vec![dep, id(2, 1, 1), id(3, 1, 1)]);
}

#[test]
fn pending_overflow_drops_oldest() {
    let mut log = EventLog::new(9, 1, 2);
    let missing = id(5, 1, 1);
    for s in 1..=3u64 {
        assert_eq!(log.add(user_event(id(1, 1, s), clock_of(&[missing]), "x")).len(), 0);
    }
    assert_eq!(log.pending.len(), 2);
    assert_eq!(log.overflow_count, 1);
    assert_eq!(log.pending[0].id, id(1, 1, 2));
    assert_eq!(log.pending[1].id, id(1, 1, 3));
}

#[test]
fn epoch_update_drops_stale_local_events() {
    let mut log = EventLog::new(1, 3, 8);
    let missing = id(7, 1, 1);
    log.add(user_event(id(1, 3, 4), clock_of(&[missing]), "mine"));
    log.add(user_event(id(2, 1, 1), clock_of(&[missing]), "theirs"));
    assert_eq!(log.pending.len(), 2);
    log.update_epoch(4);
    assert_eq!(log.epoch, 4);
    assert_eq!(log.next_seq, 1);
    assert_eq!(log.pending.len(), 1);
    assert_eq!(log.pending[0].id, id(2, 1, 1));
    // a straggler of this server's old epoch is discarded
    assert_eq!(log.add(user_event(id(1, 3, 9), EventClock::new(), "old")).len(), 0);
    assert_eq!(log.pending.len(), 1);
    // an older epoch number changes nothing
    log.update_epoch(2);
    assert_eq!(log.epoch, 4);
}

#[test]
fn new_event_is_stamped_and_delivered() {
    let mut log = EventLog::new(4, 2, 8);
    log.add(user_event(id(1, 1, 1), EventClock::new(), "a"));
    let out = log.new_event(ObjectId::User(UserId(id(4, 2, 1))), EventDetails::NewUser { nickname: b"me".to_vec() }, 77);
    assert_eq!(out.len(), 1);
    assert_eq!(out[0].id, id(4, 2, 1));
    assert_eq!(out[0].timestamp, 77);
    assert!(out[0].clock.contains(&id(1, 1, 1)));
    assert_eq!(log.next_seq, 2);
    assert!(log.seen.contains(&id(4, 2, 1)));
}

#[test]
fn clock_comparison() {
    let a = clock_of(&[id(1, 1, 2)]);
    let b = clock_of(&[id(1, 1, 3), id(2, 1, 1)]);
    let c = clock_of(&[id(2, 1, 4)]);
    assert_eq!(a.compare(&b), ClockOrder::Before);
    assert_eq!(b.compare(&a), ClockOrder::After);
    assert_eq!(a.compare(&clock_of(&[id(1, 1, 2)])), ClockOrder::Equal);
    assert_eq!(a.compare(&c), ClockOrder::Concurrent);
}

#[test]
fn restart_epoch_follows_the_highest_seen() {
    let mut log = EventLog::new(1, 1, 8);
    assert_eq!(log.restart_epoch(), Some(1));
    log.add(user_event(id(1, 3, 9), EventClock::new(), "mine"));
    log.add(user_event(id(2, 7, 1), EventClock::new(), "theirs"));
    assert_eq!(log.restart_epoch(), Some(4));
}

use sable_network::chathistory::{handle_chathistory, target_name_for_entry, HistoryReply};
use sable_network::clock::EventClock;
use sable_network::event::{Event, EventDetails};
use sable_network::ids::{ChannelId, EventId, MembershipId, MessageId, ObjectId, UserId};
use sable_network::parse::{parse_limit, parse_msgref, parse_timestamp, FailCode};
use sable_network::send_history::ClientMessage;
use sable_network::server::Server;

fn id(server: u64, epoch: u64, seq: u64) -> EventId {
    EventId::new(server, epoch, seq)
}

fn ev(eid: EventId, ts: i64, target: ObjectId, details: EventDetails) -> Event {
    Event { id: eid, timestamp: ts, clock: EventClock::new(), target, details }
}

/// A server whose log holds users u1 ("one") and u2 ("two"), and ten
/// private messages from u1 to u2 at times 1..=10.
fn ten_messages() -> (Server, UserId, UserId) {
    let mut s = Server::new(1, b"node".to_vec(), 1, 16, 100);
    let u1 = UserId(id(2, 1, 1));
    let u2 = UserId(id(2, 1, 2));
    s.receive(ev(id(2, 1, 1), 0, ObjectId::User(u1), EventDetails::NewUser { nickname: b"one".to_vec() }));
    s.receive(ev(id(2, 1, 2), 0, ObjectId::User(u2), EventDetails::NewUser { nickname: b"two".to_vec() }));
    for t in 1..=10u64 {
        let eid = id(2, 1, 2 + t);
        s.receive(ev(eid, t as i64, ObjectId::Message(MessageId(eid)), EventDetails::NewMessage {
            source: u1,
            target: ObjectId::User(u2),
            text: format!("m{}", t).into_bytes(),
        }));
    }
    (s, u1, u2)
}

fn batch_times(s: &Server, r: &HistoryReply) -> Vec<i64> {
    match r {
        HistoryReply::Batch { entries, .. } => entries.iter().map(|i| s.history_log.entries[*i].timestamp).collect(),
        _ => panic!("expected a batch"),
    }
}

#[test]
fn chathistory_around() {
    let (s, u1, _) = ten_messages();
    let r = handle_chathistory(&s.history_log, u1, b"AROUND", b"two", b"timestamp=5", b"4", None);
    assert_eq!(batch_times(&s, &r), vec![4, 5, 6, 7]);
}

#[test]
fn chathistory_before_after_strict() {
    let (s, u1, u2) = ten_messages();
    let r = handle_chathistory(&s.history_log, u1, b"before", b"two", b"timestamp=5", b"3", None);
    assert_eq!(batch_times(&s, &r), vec![2, 3, 4]);
    let r = handle_chathistory(&s.history_log, u1, b"AFTER", b"two", b"timestamp=5", b"3", None);
    assert_eq!(batch_times(&s, &r), vec![6, 7, 8]);
    // the recipient sees the conversation under the sender's name
    let r = handle_chathistory(&s.history_log, u2, b"AFTER", b"one", b"timestamp=8", b"10", None);
    assert_eq!(batch_times(&s, &r), vec![9, 10]);
}

#[test]
fn chathistory_latest() {
    let (s, u1, _) = ten_messages();
    let r = handle_chathistory(&s.history_log, u1, b"LATEST", b"two", b"*", b"2", None);
    assert_eq!(batch_times(&s, &r), vec![9, 10]);
    let r = handle_chathistory(&s.history_log, u1, b"LATEST", b"two", b"timestamp=8", b"5", None);
    assert_eq!(batch_times(&s, &r), vec![9, 10]);
}

#[test]
fn chathistory_between() {
    let (s, u1, _) = ten_messages();
    let r = handle_chathistory(&s.history_log, u1, b"BETWEEN", b"two", b"timestamp=7", b"timestamp=3", Some(&b"10"[..]));
    assert_eq!(batch_times(&s, &r), vec![3, 4, 5, 6]);
}

#[test]
fn chathistory_between_equal_bounds() {
    let (s, u1, _) = ten_messages();
    let r = handle_chathistory(&s.history_log, u1, b"BETWEEN", b"two", b"timestamp=5", b"timestamp=5", Some(&b"10"[..]));
    match r {
        HistoryReply::Batch { target, entries } => {
            assert_eq!(target, b"two".to_vec());
            assert!(entries.is_empty());
        }
        _ => panic!("expected an empty batch"),
    }
}

#[test]
fn chathistory_targets() {
    let (mut s, u1, u2) = ten_messages();
    let u3 = UserId(id(2, 1, 50));
    let c = ChannelId(id(2, 1, 51));
    s.receive(ev(id(2, 1, 50), 0, ObjectId::User(u3), EventDetails::NewUser { nickname: b"three".to_vec() }));
    s.receive(ev(id(2, 1, 51), 0, ObjectId::Channel(c), EventDetails::NewChannel { name: b"#room".to_vec() }));
    s.receive(ev(id(2, 1, 52), 0, ObjectId::Membership(MembershipId { user: u1, channel: c }), EventDetails::ChannelJoin {
        user: u1,
        channel: c,
    }));
    s.receive(ev(id(2, 1, 53), 20, ObjectId::Message(MessageId(id(2, 1, 53))), EventDetails::NewMessage {
        source: u3,
        target: ObjectId::Channel(c),
        text: b"hello".to_vec(),
    }));
    let r = handle_chathistory(&s.history_log, u1, b"TARGETS", b"timestamp=100", b"timestamp=0", b"10", None);
    match r {
        HistoryReply::Targets { targets } => {
            let got: Vec<(Vec<u8>, i64)> = targets.into_iter().map(|t| (t.name, t.timestamp)).collect();
            assert_eq!(got, vec![(b"#room".to_vec(), 20), (b"two".to_vec(), 10)]);
        }
        _ => panic!("expected targets"),
    }
    let r = handle_chathistory(&s.history_log, u2, b"TARGETS", b"timestamp=0", b"timestamp=100", b"1", None);
    match r {
        HistoryReply::Targets { targets } => {
            assert_eq!(targets.len(), 1);
            assert_eq!(targets[0].name, b"one".to_vec());
        }
        _ => panic!("expected targets"),
    }
}

#[test]
fn chathistory_unknown_target_fails() {
    let (s, u1, _) = ten_messages();
    let r = handle_chathistory(&s.history_log, u1, b"BEFORE", b"nobody", b"timestamp=5", b"3", None);
    match r {
        HistoryReply::Fail(f) => {
            assert_eq!(f.code, FailCode::InvalidTarget);
            assert_eq!(f.context, b"BEFORE nobody".to_vec());
            assert_eq!(f.description, b"Cannot fetch history from nobody".to_vec());
        }
        _ => panic!("expected a refusal"),
    }
}

#[test]
fn chathistory_refusals() {
    let (s, u1, _) = ten_messages();
    let fail = |r: HistoryReply| match r {
        HistoryReply::Fail(f) => (f.code, f.context, String::from_utf8(f.description).unwrap()),
        _ => panic!("expected a refusal"),
    };
    let r = handle_chathistory(&s.history_log, u1, b"SIDEWAYS", b"two", b"timestamp=5", b"3", None);
    assert_eq!(fail(r), (FailCode::InvalidParams, b"SIDEWAYS".to_vec(), "Invalid subcommand".to_string()));
    let r = handle_chathistory(&s.history_log, u1, b"BEFORE", b"two", b"timestamp=5", b"lots", None);
    assert_eq!(fail(r), (FailCode::InvalidParams, Vec::new(), "Invalid limit".to_string()));
    let r = handle_chathistory(&s.history_log, u1, b"BEFORE", b"two", b"msgid=abc", b"3", None);
    assert_eq!(fail(r), (
        FailCode::InvalidMsgrefType,
        b"BEFORE two".to_vec(),
        "msgid-based history requests are not supported yet".to_string(),
    ));
    let r = handle_chathistory(&s.history_log, u1, b"BEFORE", b"two", b"timestamp=soon", b"3", None);
    assert_eq!(fail(r), (FailCode::InvalidParams, b"BEFORE".to_vec(), "Invalid timestamp".to_string()));
    let r = handle_chathistory(&s.history_log, u1, b"BETWEEN", b"two", b"timestamp=1", b"timestamp=2", None);
    assert_eq!(fail(r), (FailCode::InvalidParams, Vec::new(), "Invalid limit".to_string()));
    let r = handle_chathistory(&s.history_log, u1, b"TARGETS", b"when", b"timestamp=2", b"3", None);
    assert_eq!(fail(r), (
        FailCode::InvalidMsgrefType,
        b"TARGETS".to_vec(),
        format!("{:?} is not a valid message reference", "when"),
    ));
}

#[test]
fn msgref_parsing() {
    assert_eq!(parse_msgref(b"BEFORE", None, b"timestamp=-12").ok(), Some(-12));
    assert_eq!(parse_msgref(b"BEFORE", None, b"timestamp=9223372036854775807").ok(), Some(i64::MAX));
    assert_eq!(parse_msgref(b"BEFORE", None, b"timestamp=-9223372036854775808").ok(), Some(i64::MIN));
    let e = parse_msgref(b"BEFORE", Some(&b"#x"[..]), b"timestamp=9223372036854775808").err().unwrap();
    assert_eq!(e.code, FailCode::InvalidParams);
    assert_eq!(e.context, b"BEFORE".to_vec());
    let e = parse_msgref(b"AFTER", Some(&b"#x"[..]), b"nonsense").err().unwrap();
    assert_eq!(e.code, FailCode::InvalidMsgrefType);
    assert_eq!(e.context, b"AFTER #x".to_vec());
    assert_eq!(e.description, b"\"nonsense\" is not a valid message reference".to_vec());
    let odd = "a\"b\\c\nd\u{1b}e\u{7}f";
    let e = parse_msgref(b"AFTER", None, odd.as_bytes()).err().unwrap();
    assert_eq!(String::from_utf8(e.description).unwrap(), format!("{:?} is not a valid message reference", odd));
    let e = parse_msgref(b"AFTER", None, b"msgid=x").err().unwrap();
    assert_eq!(e.description, b"msgid-based history requests are not supported yet".to_vec());
    let e = parse_msgref(b"AFTER", None, b"timestamp=x").err().unwrap();
    assert_eq!(e.description, b"Invalid timestamp".to_vec());
}

#[test]
fn number_parsing() {
    assert_eq!(parse_limit(b"42"), Some(42));
    assert_eq!(parse_limit(b"+7"), Some(7));
    assert_eq!(parse_limit(b""), None);
    assert_eq!(parse_limit(b"-1"), None);
    assert_eq!(parse_limit(b"4x"), None);
    assert_eq!(parse_limit(b"99999999999999999999999"), None);
    assert_eq!(parse_timestamp(b"0"), Some(0));
    assert_eq!(parse_timestamp(b"-"), None);
}

#[test]
fn entry_target_names() {
    let (s, u1, u2) = ten_messages();
    let last = s.history_log.entries.last().unwrap();
    assert_eq!(target_name_for_entry(u1, last), Some(b"two".to_vec()));
    assert_eq!(target_name_for_entry(u2, last), Some(b"one".to_vec()));
    assert_eq!(target_name_for_entry(u1, &s.history_log.entries[0]), None);
}

#[test]
fn history_entries_for_user() {
    let (mut s, u1, u2) = ten_messages();
    let u3 = UserId(id(2, 1, 50));
    s.receive(ev(id(2, 1, 50), 30, ObjectId::User(u3), EventDetails::NewUser { nickname: b"three".to_vec() }));
    let for_u3 = s.history_log.entries_for_user(u3);
    assert_eq!(for_u3.len(), 1);
    assert_eq!(s.history_log.entries[for_u3[0]].timestamp, 30);
    let for_u2 = s.history_log.entries_for_user(u2);
    // its own arrival and the ten messages
    assert_eq!(for_u2.len(), 11);
    let rev = s.history_log.entries_for_user_reverse(u2);
    let mut back = rev.clone();
    back.reverse();
    assert_eq!(back, for_u2);
    assert!(s.history_log.entries_for_user(u1).windows(2).all(|w| w[0] < w[1]));
}

#[test]
fn history_is_bounded() {
    let mut s = Server::new(1, b"node".to_vec(), 1, 16, 3);
    for k in 1..=5u64 {
        let u = UserId(id(2, 1, k));
        s.receive(ev(id(2, 1, k), k as i64, ObjectId::User(u), EventDetails::NewUser { nickname: format!("n{}", k).into_bytes() }));
    }
    assert_eq!(s.history_log.entries.len(), 3);
    let times: Vec<i64> = s.history_log.entries.iter().map(|e| e.timestamp).collect();
    assert_eq!(times, vec![3, 4, 5]);
    assert_eq!(s.history_log.entries[0].id, 3);
}

#[test]
fn history_entries_replay_as_messages() {
    let (s, u1, u2) = ten_messages();
    let last = s.history_log.entries.last().unwrap();
    let to_sender = last.send_to(u1).expect("a message");
    assert!(to_sender.echo);
    assert_eq!(to_sender.time, 10);
    match &to_sender.message {
        ClientMessage::Message { source, text, .. } => {
            assert_eq!(*source, u1);
            assert_eq!(text, &b"m10".to_vec());
        }
        _ => panic!("expected a message"),
    }
    let to_recipient = last.send_to(u2).expect("a message");
    assert!(!to_recipient.echo);
    assert!(s.history_log.entries[0].send_to(u1).is_none());
}

#[test]
fn history_expires_old_entries() {
    let (mut s, u1, _) = ten_messages();
    let before = s.history_log.entries.len();
    s.history_log.expire(6);
    let times: Vec<i64> = s.history_log.entries.iter().map(|e| e.timestamp).collect();
    assert_eq!(times, vec![6, 7, 8, 9, 10]);
    assert_eq!(before - s.history_log.entries.len(), 7);
    s.history_log.expire(100);
    assert!(s.history_log.entries.is_empty());
    assert!(s.history_log.entries_for_user(u1).is_empty());
}

//! The wire form of events: a text record that names each field (`id`,
//! `time`, `clock`, `target`, `details`) before its value. Numbers are
//! written in decimal, each followed by a space; kinds of target and details
//! are numbered tags; byte strings are written as their length, then their
//! bytes. Decoding an encoded event gives the event back.
use vstd::prelude::*;
use crate::text::{bytes_eq, copy_bytes, decimal, push_all, push_decimal};
use crate::parse::{all_digits, digits_value, find_from, find_byte, is_digit, parse_u64, sub_bytes, u64_value};
use crate::ids::{ChannelId, EventId, MembershipId, MessageId, ObjectId, UserId};
use crate::clock::{EventClock, lemma_map_of, map_of, servers_unique};
use crate::event::{DetailsView, Event, EventDetails, EventView};

verus! {

/// A number on the wire.
pub open spec fn enc_u64(n: u64) -> Seq<u8> {
    decimal(n as nat) + seq![32u8]
}

/// Reads a number: digits up to the first space.
pub open spec fn dec_u64(s: Seq<u8>) -> Option<(u64, Seq<u8>)> {
    let k = find_from(s, 32, 0);
    if k < s.len() {
        match u64_value(s.take(k)) {
            Some(v) => Some((v as u64, s.skip(k + 1))),
            None => None,
        }
    } else {
        None
    }
}

/// A byte string on the wire.
pub open spec fn enc_bytes(b: Seq<u8>) -> Seq<u8> {
    enc_u64(b.len() as u64) + b
}

pub open spec fn dec_bytes(s: Seq<u8>) -> Option<(Seq<u8>, Seq<u8>)> {
    match dec_u64(s) {
        Some((n, r)) => if n <= r.len() {
            Some((r.take(n as int), r.skip(n as int)))
        } else {
            None
        },
        None => None,
    }
}

proof fn lemma_decimal(n: nat)
    ensures
        decimal(n).len() >= 1,
        all_digits(decimal(n)),
        digits_value(decimal(n)) == n,
    decreases n,
{
    if n >= 10 {
        lemma_decimal(n / 10);
        let d = decimal(n);
        assert(d.drop_last() =~= decimal(n / 10));
        assert(d.last() == (48 + n % 10) as u8);
        assert(n / 10 * 10 + n % 10 == n) by (nonlinear_arith);
        assert(digits_value(d) == digits_value(decimal(n / 10)) * 10 + (d.last() - 48));
        assert forall|i: int| 0 <= i < d.len() implies is_digit(#[trigger] d[i]) by {
            if i < d.len() - 1 {
                assert(d[i] == decimal(n / 10)[i]);
            }
        }
    } else {
        let d = seq![(48 + n) as u8];
        assert(d.drop_last() =~= Seq::<u8>::empty());
        assert(d.last() == (48 + n) as u8);
        assert(digits_value(d) == digits_value(d.drop_last()) * 10 + (d.last() - 48));
    }
}

proof fn lemma_find_first(s: Seq<u8>, b: u8, i: int, k: int)
    requires
        0 <= i <= k < s.len(),
        s[k] == b,
        forall|j: int| i <= j < k ==> s[j] != b,
    ensures
        find_from(s, b, i) == k,
    decreases k - i,
{
    if i < k {
        lemma_find_first(s, b, i + 1, k);
    }
}

pub proof fn lemma_u64_round_trip(n: u64, rest: Seq<u8>)
    ensures
        dec_u64(enc_u64(n) + rest) == Some((n, rest)),
{
    let d = decimal(n as nat);
    let s = enc_u64(n) + rest;
    lemma_decimal(n as nat);
    assert forall|j: int| 0 <= j < d.len() implies s[j] != 32 by {
        assert(s[j] == d[j]);
        assert(is_digit(d[j]));
    }
    assert(s[d.len() as int] == 32);
    lemma_find_first(s, 32, 0, d.len() as int);
    assert(s.take(d.len() as int) =~= d);
    assert(s.skip(d.len() as int + 1) =~= rest);
}

pub proof fn lemma_bytes_round_trip(b: Seq<u8>, rest: Seq<u8>)
    requires
        b.len() <= u64::MAX,
    ensures
        dec_bytes(enc_bytes(b) + rest) == Some((b, rest)),
{
    lemma_u64_round_trip(b.len() as u64, b + rest);
    assert(enc_bytes(b) + rest =~= enc_u64(b.len() as u64) + (b + rest));
    assert((b + rest).take(b.len() as int) =~= b);
    assert((b + rest).skip(b.len() as int) =~= rest);
}

/// A timestamp: its sign (1 for negative) and its magnitude.
pub open spec fn enc_i64(t: i64) -> Seq<u8> {
    if t < 0 {
        enc_u64(1) + enc_u64((-t) as u64)
    } else {
        enc_u64(0) + enc_u64(t as u64)
    }
}

pub open spec fn dec_i64(s: Seq<u8>) -> Option<(i64, Seq<u8>)> {
    match dec_u64(s) {
        Some((sign, r)) => match dec_u64(r) {
            Some((m, r2)) => if sign == 0 && m <= i64::MAX {
                Some((m as i64, r2))
            } else if sign == 1 && 1 <= m <= 0x8000_0000_0000_0000 {
                Some(((-m) as i64, r2))
            } else {
                None
            },
            None => None,
        },
        None => None,
    }
}

pub open spec fn enc_id(e: EventId) -> Seq<u8> {
    enc_u64(e.server) + enc_u64(e.epoch) + enc_u64(e.seq)
}

pub open spec fn dec_id(s: Seq<u8>) -> Option<(EventId, Seq<u8>)> {
    match dec_u64(s) {
        Some((a, r1)) => match dec_u64(r1) {
            Some((b, r2)) => match dec_u64(r2) {
                Some((c, r3)) => Some((EventId { server: a, epoch: b, seq: c }, r3)),
                None => None,
            },
            None => None,
        },
        None => None,
    }
}

/// An object id: a tag, then the id's numbers.
pub open spec fn enc_target(t: ObjectId) -> Seq<u8> {
    match t {
        ObjectId::User(u) => enc_u64(0) + enc_id(u.0),
        ObjectId::Channel(c) => enc_u64(1) + enc_id(c.0),
        ObjectId::Membership(m) => enc_u64(2) + enc_id(m.user.0) + enc_id(m.channel.0),
        ObjectId::Message(m) => enc_u64(3) + enc_id(m.0),
        ObjectId::Server(s) => enc_u64(4) + enc_u64(s),
    }
}

pub open spec fn dec_target(s: Seq<u8>) -> Option<(ObjectId, Seq<u8>)> {
    match dec_u64(s) {
        Some((tag, r)) => if tag == 4 {
            match dec_u64(r) {
                Some((v, r2)) => Some((ObjectId::Server(v), r2)),
                None => None,
            }
        } else {
            match dec_id(r) {
                Some((a, r2)) => if tag == 0 {
                    Some((ObjectId::User(UserId(a)), r2))
                } else if tag == 1 {
                    Some((ObjectId::Channel(ChannelId(a)), r2))
                } else if tag == 3 {
                    Some((ObjectId::Message(MessageId(a)), r2))
                } else if tag == 2 {
                    match dec_id(r2) {
                        Some((b, r3)) => Some((ObjectId::Membership(MembershipId { user: UserId(a), channel: ChannelId(b) }), r3)),
                        None => None,
                    }
                } else {
                    None
                },
                None => None,
            }
        },
        None => None,
    }
}

/// Event details: a tag, then the fields.
pub open spec fn enc_details(d: DetailsView) -> Seq<u8> {
    match d {
        DetailsView::NewUser { nickname } => enc_u64(0) + enc_bytes(nickname),
        DetailsView::UserNickChange { new_nick } => enc_u64(1) + enc_bytes(new_nick),
        DetailsView::UserQuit { message } => enc_u64(2) + enc_bytes(message),
        DetailsView::NewChannel { name } => enc_u64(3) + enc_bytes(name),
        DetailsView::ChannelJoin { user, channel } => enc_u64(4) + enc_id(user.0) + enc_id(channel.0),
        DetailsView::ChannelPart { message } => enc_u64(5) + enc_bytes(message),
        DetailsView::NewMessage { source, target, text } => enc_u64(6) + enc_id(source.0) + enc_target(target)
            + enc_bytes(text),
        DetailsView::NewServer { epoch } => enc_u64(7) + enc_u64(epoch),
        DetailsView::ServerQuit { epoch } => enc_u64(8) + enc_u64(epoch),
    }
}

pub open spec fn dec_details(s: Seq<u8>) -> Option<(DetailsView, Seq<u8>)> {
    match dec_u64(s) {
        Some((tag, r)) => if tag <= 3 || tag == 5 {
            match dec_bytes(r) {
                Some((b, r2)) => Some((
                    if tag == 0 {
                        DetailsView::NewUser { nickname: b }
                    } else if tag == 1 {
                        DetailsView::UserNickChange { new_nick: b }
                    } else if tag == 2 {
                        DetailsView::UserQuit { message: b }
                    } else if tag == 3 {
                        DetailsView::NewChannel { name: b }
                    } else {
                        DetailsView::ChannelPart { message: b }
                    },
                    r2,
                )),
                None => None,
            }
        } else if tag == 4 {
            match dec_id(r) {
                Some((a, r2)) => match dec_id(r2) {
                    Some((b, r3)) => Some((DetailsView::ChannelJoin { user: UserId(a), channel: ChannelId(b) }, r3)),
                    None => None,
                },
                None => None,
            }
        } else if tag == 6 {
            match dec_id(r) {
                Some((a, r2)) => match dec_target(r2) {
                    Some((t, r3)) => match dec_bytes(r3) {
                        Some((b, r4)) => Some((DetailsView::NewMessage { source: UserId(a), target: t, text: b }, r4)),
                        None => None,
                    },
                    None => None,
                },
                None => None,
            }
        } else if tag == 7 || tag == 8 {
            match dec_u64(r) {
                Some((v, r2)) => Some((
                    if tag == 7 {
                        DetailsView::NewServer { epoch: v }
                    } else {
                        DetailsView::ServerQuit { epoch: v }
                    },
                    r2,
                )),
                None => None,
            }
        } else {
            None
        },
        None => None,
    }
}

pub open spec fn enc_ids(c: Seq<EventId>) -> Seq<u8>
    decreases c.len(),
{
    if c.len() == 0 {
        Seq::empty()
    } else {
        enc_id(c[0]) + enc_ids(c.drop_first())
    }
}

pub open spec fn dec_ids(s: Seq<u8>, n: nat) -> Option<(Seq<EventId>, Seq<u8>)>
    decreases n,
{
    if n == 0 {
        Some((Seq::empty(), s))
    } else {
        match dec_id(s) {
            Some((x, r)) => match dec_ids(r, (n - 1) as nat) {
                Some((xs, r2)) => Some((seq![x] + xs, r2)),
                None => None,
            },
            None => None,
        }
    }
}

/// A clock: the number of entries, then each entry.
pub open spec fn enc_clock(c: Seq<EventId>) -> Seq<u8> {
    enc_u64(c.len() as u64) + enc_ids(c)
}

/// Reads a clock; entries must name distinct servers.
pub open spec fn dec_clock(s: Seq<u8>) -> Option<(Seq<EventId>, Seq<u8>)> {
    match dec_u64(s) {
        Some((n, r)) => match dec_ids(r, n as nat) {
            Some((c, r2)) => if servers_unique(c) { Some((c, r2)) } else { None },
            None => None,
        },
        None => None,
    }
}

pub open spec fn key_id() -> Seq<u8> {
    seq![105u8, 100]
}

pub open spec fn key_time() -> Seq<u8> {
    seq![116u8, 105, 109, 101]
}

pub open spec fn key_clock() -> Seq<u8> {
    seq![99u8, 108, 111, 99, 107]
}

pub open spec fn key_target() -> Seq<u8> {
    seq![116u8, 97, 114, 103, 101, 116]
}

pub open spec fn key_details() -> Seq<u8> {
    seq![100u8, 101, 116, 97, 105, 108, 115]
}

/// A field name, followed by a space.
pub open spec fn enc_key(k: Seq<u8>) -> Seq<u8> {
    k + seq![32u8]
}

/// Reads the field name `k`.
pub open spec fn dec_key(s: Seq<u8>, k: Seq<u8>) -> Option<Seq<u8>> {
    if s.len() >= k.len() + 1 && s.take(k.len() as int + 1) == enc_key(k) {
        Some(s.skip(k.len() as int + 1))
    } else {
        None
    }
}

/// An event: its fields `id`, `time`, `clock`, `target` and `details`, each
/// named before its value.
pub open spec fn enc_event(v: EventView) -> Seq<u8> {
    enc_key(key_id()) + enc_id(v.id) + enc_key(key_time()) + enc_i64(v.timestamp) + enc_key(key_clock()) + enc_clock(
        v.clock,
    ) + enc_key(key_target()) + enc_target(v.target) + enc_key(key_details()) + enc_details(v.details)
}

/// Reads an event that fills the whole input.
pub open spec fn dec_event(s: Seq<u8>) -> Option<EventView> {
    match dec_key(s, key_id()) {
        None => None,
        Some(s0) => match dec_id(s0) {
            None => None,
            Some((id, r1)) => match dec_key(r1, key_time()) {
                None => None,
                Some(q1) => match dec_i64(q1) {
                    None => None,
                    Some((ts, r2)) => match dec_key(r2, key_clock()) {
                        None => None,
                        Some(q2) => match dec_clock(q2) {
                            None => None,
                            Some((c, r3)) => match dec_key(r3, key_target()) {
                                None => None,
                                Some(q3) => match dec_target(q3) {
                                    None => None,
                                    Some((t, r4)) => match dec_key(r4, key_details()) {
                                        None => None,
                                        Some(q4) => match dec_details(q4) {
                                            None => None,
                                            Some((d, r5)) => if r5.len() == 0 {
                                                Some(EventView { id, timestamp: ts, clock: c, target: t, details: d })
                                            } else {
                                                None
                                            },
                                        },
                                    },
                                },
                            },
                        },
                    },
                },
            },
        },
    }
}

proof fn lemma_key_round_trip(k: Seq<u8>, rest: Seq<u8>)
    ensures
        dec_key(enc_key(k) + rest, k) == Some(rest),
{
    assert((enc_key(k) + rest).take(k.len() as int + 1) =~= enc_key(k));
    assert((enc_key(k) + rest).skip(k.len() as int + 1) =~= rest);
}

/// What an event view must satisfy to travel: one clock entry per server,
/// and byte strings whose length a `u64` holds.
pub open spec fn view_wf(v: EventView) -> bool {
    &&& servers_unique(v.clock)
    &&& v.clock.len() <= u64::MAX
    &&& match v.details {
        DetailsView::NewUser { nickname } => nickname.len() <= u64::MAX,
        DetailsView::UserNickChange { new_nick } => new_nick.len() <= u64::MAX,
        DetailsView::UserQuit { message } => message.len() <= u64::MAX,
        DetailsView::NewChannel { name } => name.len() <= u64::MAX,
        DetailsView::ChannelPart { message } => message.len() <= u64::MAX,
        DetailsView::NewMessage { text, .. } => text.len() <= u64::MAX,
        _ => true,
    }
}

proof fn lemma_i64_round_trip(t: i64, rest: Seq<u8>)
    ensures
        dec_i64(enc_i64(t) + rest) == Some((t, rest)),
{
    if t < 0 {
        let m = (-t) as u64;
        assert(enc_i64(t) + rest =~= enc_u64(1) + (enc_u64(m) + rest));
        lemma_u64_round_trip(1, enc_u64(m) + rest);
        lemma_u64_round_trip(m, rest);
    } else {
        let m = t as u64;
        assert(enc_i64(t) + rest =~= enc_u64(0) + (enc_u64(m) + rest));
        lemma_u64_round_trip(0, enc_u64(m) + rest);
        lemma_u64_round_trip(m, rest);
    }
}

proof fn lemma_id_round_trip(e: EventId, rest: Seq<u8>)
    ensures
        dec_id(enc_id(e) + rest) == Some((e, rest)),
{
    assert(enc_id(e) + rest =~= enc_u64(e.server) + (enc_u64(e.epoch) + (enc_u64(e.seq) + rest)));
    lemma_u64_round_trip(e.server, enc_u64(e.epoch) + (enc_u64(e.seq) + rest));
    lemma_u64_round_trip(e.epoch, enc_u64(e.seq) + rest);
    lemma_u64_round_trip(e.seq, rest);
}

proof fn lemma_target_round_trip(t: ObjectId, rest: Seq<u8>)
    ensures
        dec_target(enc_target(t) + rest) == Some((t, rest)),
{
    match t {
        ObjectId::User(u) => {
            assert(enc_target(t) + rest =~= enc_u64(0) + (enc_id(u.0) + rest));
            lemma_u64_round_trip(0, enc_id(u.0) + rest);
            lemma_id_round_trip(u.0, rest);
        },
        ObjectId::Channel(c) => {
            assert(enc_target(t) + rest =~= enc_u64(1) + (enc_id(c.0) + rest));
            lemma_u64_round_trip(1, enc_id(c.0) + rest);
            lemma_id_round_trip(c.0, rest);
        },
        ObjectId::Membership(m) => {
            assert(enc_target(t) + rest =~= enc_u64(2) + (enc_id(m.user.0) + (enc_id(m.channel.0) + rest)));
            lemma_u64_round_trip(2, enc_id(m.user.0) + (enc_id(m.channel.0) + rest));
            lemma_id_round_trip(m.user.0, enc_id(m.channel.0) + rest);
            lemma_id_round_trip(m.channel.0, rest);
        },
        ObjectId::Message(m) => {
            assert(enc_target(t) + rest =~= enc_u64(3) + (enc_id(m.0) + rest));
            lemma_u64_round_trip(3, enc_id(m.0) + rest);
            lemma_id_round_trip(m.0, rest);
        },
        ObjectId::Server(v) => {
            assert(enc_target(t) + rest =~= enc_u64(4) + (enc_u64(v) + rest));
            lemma_u64_round_trip(4, enc_u64(v) + rest);
            lemma_u64_round_trip(v, rest);
        },
    }
}

proof fn lemma_tagged_bytes(tag: u64, b: Seq<u8>, rest: Seq<u8>)
    requires
        b.len() <= u64::MAX,
    ensures
        dec_u64(enc_u64(tag) + enc_bytes(b) + rest) == Some((tag, enc_bytes(b) + rest)),
        dec_bytes(enc_bytes(b) + rest) == Some((b, rest)),
{
    assert(enc_u64(tag) + enc_bytes(b) + rest =~= enc_u64(tag) + (enc_bytes(b) + rest));
    lemma_u64_round_trip(tag, enc_bytes(b) + rest);
    lemma_bytes_round_trip(b, rest);
}

proof fn lemma_details_round_trip(d: DetailsView, rest: Seq<u8>)
    requires
        match d {
            DetailsView::NewUser { nickname } => nickname.len() <= u64::MAX,
            DetailsView::UserNickChange { new_nick } => new_nick.len() <= u64::MAX,
            DetailsView::UserQuit { message } => message.len() <= u64::MAX,
            DetailsView::NewChannel { name } => name.len() <= u64::MAX,
            DetailsView::ChannelPart { message } => message.len() <= u64::MAX,
            DetailsView::NewMessage { text, .. } => text.len() <= u64::MAX,
            _ => true,
        },
    ensures
        dec_details(enc_details(d) + rest) == Some((d, rest)),
{
    match d {
        DetailsView::NewUser { nickname } => lemma_tagged_bytes(0, nickname, rest),
        DetailsView::UserNickChange { new_nick } => lemma_tagged_bytes(1, new_nick, rest),
        DetailsView::UserQuit { message } => lemma_tagged_bytes(2, message, rest),
        DetailsView::NewChannel { name } => lemma_tagged_bytes(3, name, rest),
        DetailsView::ChannelPart { message } => lemma_tagged_bytes(5, message, rest),
        DetailsView::ChannelJoin { user, channel } => {
            assert(enc_details(d) + rest =~= enc_u64(4) + (enc_id(user.0) + (enc_id(channel.0) + rest)));
            lemma_u64_round_trip(4, enc_id(user.0) + (enc_id(channel.0) + rest));
            lemma_id_round_trip(user.0, enc_id(channel.0) + rest);
            lemma_id_round_trip(channel.0, rest);
        },
        DetailsView::NewMessage { source, target, text } => {
            assert(enc_details(d) + rest =~= enc_u64(6) + (enc_id(source.0) + (enc_target(target) + (enc_bytes(text)
                + rest))));
            lemma_u64_round_trip(6, enc_id(source.0) + (enc_target(target) + (enc_bytes(text) + rest)));
            lemma_id_round_trip(source.0, enc_target(target) + (enc_bytes(text) + rest));
            lemma_target_round_trip(target, enc_bytes(text) + rest);
            lemma_bytes_round_trip(text, rest);
        },
        DetailsView::NewServer { epoch } => {
            assert(enc_details(d) + rest =~= enc_u64(7) + (enc_u64(epoch) + rest));
            lemma_u64_round_trip(7, enc_u64(epoch) + rest);
            lemma_u64_round_trip(epoch, rest);
        },
        DetailsView::ServerQuit { epoch } => {
            assert(enc_details(d) + rest =~= enc_u64(8) + (enc_u64(epoch) + rest));
            lemma_u64_round_trip(8, enc_u64(epoch) + rest);
            lemma_u64_round_trip(epoch, rest);
        },
    }
}

proof fn lemma_ids_round_trip(c: Seq<EventId>, rest: Seq<u8>)
    ensures
        dec_ids(enc_ids(c) + rest, c.len()) == Some((c, rest)),
    decreases c.len(),
{
    if c.len() > 0 {
        let t = c.drop_first();
        assert(enc_ids(c) + rest =~= enc_id(c[0]) + (enc_ids(t) + rest));
        lemma_id_round_trip(c[0], enc_ids(t) + rest);
        lemma_ids_round_trip(t, rest);
        assert(seq![c[0]] + t =~= c);
    }
}

/// Decoding an encoded event gives the event back.
pub proof fn lemma_event_round_trip(v: EventView)
    requires
        view_wf(v),
    ensures
        dec_event(enc_event(v)) == Some(v),
{
    let e = Seq::<u8>::empty();
    let r5 = enc_details(v.details) + e;
    let q4 = enc_key(key_details()) + r5;
    let r4 = enc_target(v.target) + q4;
    let q3 = enc_key(key_target()) + r4;
    let r3b = enc_ids(v.clock) + q3;
    let r3 = enc_u64(v.clock.len() as u64) + r3b;
    let q2 = enc_key(key_clock()) + r3;
    let r2 = enc_i64(v.timestamp) + q2;
    let q1 = enc_key(key_time()) + r2;
    let r1 = enc_id(v.id) + q1;
    let s0 = enc_key(key_id()) + r1;
    assert(enc_event(v) =~= s0);
    lemma_key_round_trip(key_id(), r1);
    lemma_id_round_trip(v.id, q1);
    lemma_key_round_trip(key_time(), r2);
    lemma_i64_round_trip(v.timestamp, q2);
    lemma_key_round_trip(key_clock(), r3);
    assert(enc_clock(v.clock) + q3 =~= r3);
    lemma_u64_round_trip(v.clock.len() as u64, r3b);
    lemma_ids_round_trip(v.clock, q3);
    lemma_key_round_trip(key_target(), r4);
    lemma_target_round_trip(v.target, q4);
    lemma_key_round_trip(key_details(), r5);
    lemma_details_round_trip(v.details, e);
}

/// Appends a field name.
fn push_key(out: &mut Vec<u8>, k: &[u8])
    ensures
        final(out)@ == old(out)@ + enc_key(k@),
{
    push_all(out, k);
    out.push(32);
    assert(final(out)@ =~= old(out)@ + enc_key(k@));
}

/// Reads the field name `k` at `pos`; returns the position after it.
fn read_key(buf: &[u8], pos: usize, k: &[u8]) -> (r: Option<usize>)
    requires
        pos <= buf@.len(),
    ensures
        match (r, dec_key(buf@.skip(pos as int), k@)) {
            (Some(p), Some(rest)) => p <= buf@.len() && buf@.skip(p as int) == rest,
            (None, None) => true,
            _ => false,
        },
{
    if buf.len() - pos <= k.len() {
        return None;
    }
    let end = pos + k.len() + 1;
    let got = sub_bytes(buf, pos, end);
    let mut want = copy_bytes(k);
    want.push(32);
    assert(got@ =~= buf@.skip(pos as int).take(k@.len() as int + 1));
    assert(want@ =~= enc_key(k@));
    if bytes_eq(got.as_slice(), want.as_slice()) {
        assert(buf@.skip(end as int) =~= buf@.skip(pos as int).skip(k@.len() as int + 1));
        Some(end)
    } else {
        None
    }
}

/// Appends a number.
pub fn push_u64(out: &mut Vec<u8>, n: u64)
    ensures
        final(out)@ == old(out)@ + enc_u64(n),
{
    push_decimal(out, n);
    out.push(32);
    assert(final(out)@ =~= old(out)@ + enc_u64(n));
}

/// Appends a byte string.
pub fn push_bytes(out: &mut Vec<u8>, b: &[u8])
    ensures
        final(out)@ == old(out)@ + enc_bytes(b@),
{
    push_u64(out, b.len() as u64);
    push_all(out, b);
    assert(final(out)@ =~= old(out)@ + enc_bytes(b@));
}

/// Reads a number at `pos`; returns it with the position after it.
pub fn read_u64(buf: &[u8], pos: usize) -> (r: Option<(u64, usize)>)
    requires
        pos <= buf@.len(),
    ensures
        match (r, dec_u64(buf@.skip(pos as int))) {
            (Some((v, p)), Some((w, rest))) => v == w && p <= buf@.len() && buf@.skip(p as int) == rest,
            (None, None) => true,
            _ => false,
        },
{
    let tail = sub_bytes(buf, pos, buf.len());
    assert(tail@ =~= buf@.skip(pos as int));
    let k = find_byte(tail.as_slice(), 32);
    if k >= tail.len() {
        return None;
    }
    let digits = sub_bytes(tail.as_slice(), 0, k);
    assert(digits@ =~= tail@.take(k as int));
    match parse_u64(digits.as_slice()) {
        Some(v) => {
            assert(buf@.skip(pos + k + 1) =~= tail@.skip(k + 1));
            Some((v, pos + k + 1))
        },
        None => None,
    }
}

/// Reads a byte string at `pos`.
pub fn read_bytes(buf: &[u8], pos: usize) -> (r: Option<(Vec<u8>, usize)>)
    requires
        pos <= buf@.len(),
    ensures
        match (r, dec_bytes(buf@.skip(pos as int))) {
            (Some((v, p)), Some((w, rest))) => v@ == w && p <= buf@.len() && buf@.skip(p as int) == rest,
            (None, None) => true,
            _ => false,
        },
{
    match read_u64(buf, pos) {
        Some((n, p)) => {
            if n <= (buf.len() - p) as u64 {
                let end = p + n as usize;
                let v = sub_bytes(buf, p, end);
                assert(v@ =~= buf@.skip(p as int).take(n as int));
                assert(buf@.skip(end as int) =~= buf@.skip(p as int).skip(n as int));
                Some((v, end))
            } else {
                None
            }
        },
        None => None,
    }
}

proof fn lemma_enc_ids_push(c: Seq<EventId>, x: EventId)
    ensures
        enc_ids(c.push(x)) == enc_ids(c) + enc_id(x),
    decreases c.len(),
{
    if c.len() == 0 {
        assert(c.push(x).drop_first() =~= Seq::<EventId>::empty());
        assert(c.push(x)[0] == x);
        assert(enc_ids(Seq::<EventId>::empty()) == Seq::<u8>::empty());
        assert(enc_ids(c.push(x)) == enc_id(x) + enc_ids(Seq::<EventId>::empty()));
        assert(enc_ids(c) == Seq::<u8>::empty());
        assert(enc_ids(c.push(x)) =~= enc_ids(c) + enc_id(x));
    } else {
        lemma_enc_ids_push(c.drop_first(), x);
        assert(c.push(x).drop_first() =~= c.drop_first().push(x));
        assert(enc_ids(c.push(x)) =~= enc_id(c[0]) + (enc_ids(c.drop_first()) + enc_id(x)));
    }
}

fn push_i64(out: &mut Vec<u8>, t: i64)
    ensures
        final(out)@ == old(out)@ + enc_i64(t),
{
    if t < 0 {
        push_u64(out, 1);
        let m: u64 = if t == i64::MIN { 0x8000_0000_0000_0000u64 } else { (-t) as u64 };
        push_u64(out, m);
    } else {
        push_u64(out, 0);
        push_u64(out, t as u64);
    }
    assert(final(out)@ =~= old(out)@ + enc_i64(t));
}

fn push_id(out: &mut Vec<u8>, e: EventId)
    ensures
        final(out)@ == old(out)@ + enc_id(e),
{
    push_u64(out, e.server);
    push_u64(out, e.epoch);
    push_u64(out, e.seq);
    assert(final(out)@ =~= old(out)@ + enc_id(e));
}

fn push_target(out: &mut Vec<u8>, t: ObjectId)
    ensures
        final(out)@ == old(out)@ + enc_target(t),
{
    match t {
        ObjectId::User(u) => {
            push_u64(out, 0);
            push_id(out, u.0);
        },
        ObjectId::Channel(c) => {
            push_u64(out, 1);
            push_id(out, c.0);
        },
        ObjectId::Membership(m) => {
            push_u64(out, 2);
            push_id(out, m.user.0);
            push_id(out, m.channel.0);
        },
        ObjectId::Message(m) => {
            push_u64(out, 3);
            push_id(out, m.0);
        },
        ObjectId::Server(v) => {
            push_u64(out, 4);
            push_u64(out, v);
        },
    }
    assert(final(out)@ =~= old(out)@ + enc_target(t));
}

fn push_details(out: &mut Vec<u8>, d: &EventDetails)
    ensures
        final(out)@ == old(out)@ + enc_details(d@),
{
    match d {
        EventDetails::NewUser { nickname } => {
            push_u64(out, 0);
            push_bytes(out, nickname.as_slice());
        },
        EventDetails::UserNickChange { new_nick } => {
            push_u64(out, 1);
            push_bytes(out, new_nick.as_slice());
        },
        EventDetails::UserQuit { message } => {
            push_u64(out, 2);
            push_bytes(out, message.as_slice());
        },
        EventDetails::NewChannel { name } => {
            push_u64(out, 3);
            push_bytes(out, name.as_slice());
        },
        EventDetails::ChannelJoin { user, channel } => {
            push_u64(out, 4);
            push_id(out, user.0);
            push_id(out, channel.0);
        },
        EventDetails::ChannelPart { message } => {
            push_u64(out, 5);
            push_bytes(out, message.as_slice());
        },
        EventDetails::NewMessage { source, target, text } => {
            push_u64(out, 6);
            push_id(out, source.0);
            push_target(out, *target);
            push_bytes(out, text.as_slice());
        },
        EventDetails::NewServer { epoch } => {
            push_u64(out, 7);
            push_u64(out, *epoch);
        },
        EventDetails::ServerQuit { epoch } => {
            push_u64(out, 8);
            push_u64(out, *epoch);
        },
    }
    assert(final(out)@ =~= old(out)@ + enc_details(d@));
}

fn push_clock(out: &mut Vec<u8>, c: &EventClock)
    ensures
        final(out)@ == old(out)@ + enc_clock(c.entries_view()),
{
    let entries = c.entries();
    push_u64(out, entries.len() as u64);
    let ghost start = out@;
    let mut i: usize = 0;
    while i < entries.len()
        invariant
            i <= entries@.len(),
            out@ == start + enc_ids(entries@.take(i as int)),
        decreases entries@.len() - i,
    {
        proof {
            assert(entries@.take(i + 1) =~= entries@.take(i as int).push(entries@[i as int]));
            lemma_enc_ids_push(entries@.take(i as int), entries@[i as int]);
        }
        push_id(out, entries[i]);
        i = i + 1;
        assert(out@ =~= start + enc_ids(entries@.take(i as int)));
    }
    assert(entries@.take(entries@.len() as int) =~= entries@);
    assert(final(out)@ =~= old(out)@ + enc_clock(c.entries_view()));
}

/// The wire form of an event.
pub fn encode_event(e: &Event) -> (r: Vec<u8>)
    ensures
        r@ == enc_event(e@),
{
    let k_id: [u8; 2] = [105, 100];
    assert(k_id@ =~= key_id());
    let k_time: [u8; 4] = [116, 105, 109, 101];
    assert(k_time@ =~= key_time());
    let k_clock: [u8; 5] = [99, 108, 111, 99, 107];
    assert(k_clock@ =~= key_clock());
    let k_target: [u8; 6] = [116, 97, 114, 103, 101, 116];
    assert(k_target@ =~= key_target());
    let k_details: [u8; 7] = [100, 101, 116, 97, 105, 108, 115];
    assert(k_details@ =~= key_details());
    let mut out: Vec<u8> = Vec::new();
    push_key(&mut out, k_id.as_slice());
    push_id(&mut out, e.id);
    push_key(&mut out, k_time.as_slice());
    push_i64(&mut out, e.timestamp);
    push_key(&mut out, k_clock.as_slice());
    push_clock(&mut out, &e.clock);
    push_key(&mut out, k_target.as_slice());
    push_target(&mut out, e.target);
    push_key(&mut out, k_details.as_slice());
    push_details(&mut out, &e.details);
    assert(out@ =~= enc_event(e@));
    out
}

fn read_i64(buf: &[u8], pos: usize) -> (r: Option<(i64, usize)>)
    requires
        pos <= buf@.len(),
    ensures
        match (r, dec_i64(buf@.skip(pos as int))) {
            (Some((v, p)), Some((w, rest))) => v == w && p <= buf@.len() && buf@.skip(p as int) == rest,
            (None, None) => true,
            _ => false,
        },
{
    let (sign, p1) = read_u64(buf, pos)?;
    let (m, p2) = read_u64(buf, p1)?;
    if sign == 0 && m <= i64::MAX as u64 {
        Some((m as i64, p2))
    } else if sign == 1 && 1 <= m && m <= 0x8000_0000_0000_0000u64 {
        if m == 0x8000_0000_0000_0000u64 {
            Some((i64::MIN, p2))
        } else {
            Some((-(m as i64), p2))
        }
    } else {
        None
    }
}

fn read_id(buf: &[u8], pos: usize) -> (r: Option<(EventId, usize)>)
    requires
        pos <= buf@.len(),
    ensures
        match (r, dec_id(buf@.skip(pos as int))) {
            (Some((v, p)), Some((w, rest))) => v == w && p <= buf@.len() && buf@.skip(p as int) == rest,
            (None, None) => true,
            _ => false,
        },
{
    let (a, p1) = read_u64(buf, pos)?;
    let (b, p2) = read_u64(buf, p1)?;
    let (c, p3) = read_u64(buf, p2)?;
    Some((EventId { server: a, epoch: b, seq: c }, p3))
}

fn read_target(buf: &[u8], pos: usize) -> (r: Option<(ObjectId, usize)>)
    requires
        pos <= buf@.len(),
    ensures
        match (r, dec_target(buf@.skip(pos as int))) {
            (Some((v, p)), Some((w, rest))) => v == w && p <= buf@.len() && buf@.skip(p as int) == rest,
            (None, None) => true,
            _ => false,
        },
{
    let (tag, p1) = read_u64(buf, pos)?;
    if tag == 4 {
        let (v, p2) = read_u64(buf, p1)?;
        return Some((ObjectId::Server(v), p2));
    }
    let (a, p2) = read_id(buf, p1)?;
    if tag == 0 {
        Some((ObjectId::User(UserId(a)), p2))
    } else if tag == 1 {
        Some((ObjectId::Channel(ChannelId(a)), p2))
    } else if tag == 3 {
        Some((ObjectId::Message(MessageId(a)), p2))
    } else if tag == 2 {
        let (b, p3) = read_id(buf, p2)?;
        Some((ObjectId::Membership(MembershipId { user: UserId(a), channel: ChannelId(b) }), p3))
    } else {
        None
    }
}

fn read_details(buf: &[u8], pos: usize) -> (r: Option<(EventDetails, usize)>)
    requires
        pos <= buf@.len(),
    ensures
        match (r, dec_details(buf@.skip(pos as int))) {
            (Some((v, p)), Some((w, rest))) => v@ == w && p <= buf@.len() && buf@.skip(p as int) == rest,
            (None, None) => true,
            _ => false,
        },
{
    let (tag, p1) = read_u64(buf, pos)?;
    if tag <= 3 || tag == 5 {
        let (b, p2) = read_bytes(buf, p1)?;
        let d = if tag == 0 {
            EventDetails::NewUser { nickname: b }
        } else if tag == 1 {
            EventDetails::UserNickChange { new_nick: b }
        } else if tag == 2 {
            EventDetails::UserQuit { message: b }
        } else if tag == 3 {
            EventDetails::NewChannel { name: b }
        } else {
            EventDetails::ChannelPart { message: b }
        };
        Some((d, p2))
    } else if tag == 4 {
        let (a, p2) = read_id(buf, p1)?;
        let (b, p3) = read_id(buf, p2)?;
        Some((EventDetails::ChannelJoin { user: UserId(a), channel: ChannelId(b) }, p3))
    } else if tag == 6 {
        let (a, p2) = read_id(buf, p1)?;
        let (t, p3) = read_target(buf, p2)?;
        let (b, p4) = read_bytes(buf, p3)?;
        Some((EventDetails::NewMessage { source: UserId(a), target: t, text: b }, p4))
    } else if tag == 7 || tag == 8 {
        let (v, p2) = read_u64(buf, p1)?;
        if tag == 7 {
            Some((EventDetails::NewServer { epoch: v }, p2))
        } else {
            Some((EventDetails::ServerQuit { epoch: v }, p2))
        }
    } else {
        None
    }
}

fn read_clock(buf: &[u8], pos: usize) -> (r: Option<(EventClock, usize)>)
    requires
        pos <= buf@.len(),
    ensures
        match (r, dec_clock(buf@.skip(pos as int))) {
            (Some((v, p)), Some((w, rest))) => v.entries_view() == w && v.wf() && p <= buf@.len() && buf@.skip(p as int)
                == rest,
            (None, None) => true,
            _ => false,
        },
{
    let (n, p1) = read_u64(buf, pos)?;
    let ghost start = buf@.skip(p1 as int);
    let mut clock = EventClock::new();
    let mut p = p1;
    let mut i: u64 = 0;
    while i < n
        invariant
            p <= buf@.len(),
            p1 <= buf@.len(),
            start == buf@.skip(p1 as int),
            dec_u64(buf@.skip(pos as int)) == Some((n, start)),
            i <= n,
            clock.wf(),
            servers_unique(clock.entries_view()),
            match dec_ids(buf@.skip(p as int), (n - i) as nat) {
                Some((xs, r)) => dec_ids(start, n as nat) == Some((clock.entries_view() + xs, r)),
                None => dec_ids(start, n as nat) is None,
            },
        decreases n - i,
    {
        let ghost acc = clock.entries_view();
        let ghost cur = buf@.skip(p as int);
        let (x, q) = match read_id(buf, p) {
            Some(v) => v,
            None => {
                proof {
                    assert(dec_id(cur) is None);
                    assert(dec_ids(cur, (n - i) as nat) is None);
                    assert(dec_ids(start, n as nat) is None);
                }
                return None;
            },
        };
        proof {
            assert(dec_id(cur) == Some((x, buf@.skip(q as int))));
        }
        proof {
            clock.lemma_entries();
            lemma_map_of(acc);
        }
        if clock.get(x.server).is_some() {
            proof {
                let j = choose|j: int| 0 <= j < acc.len() && acc[j].server == x.server;
                match dec_ids(buf@.skip(q as int), (n - i - 1) as nat) {
                    Some((xs, r)) => {
                        let full = acc + (seq![x] + xs);
                        assert(dec_ids(cur, (n - i) as nat) == Some((seq![x] + xs, r)));
                        assert(dec_ids(start, n as nat) == Some((full, r)));
                        assert(full[j] == acc[j]);
                        assert(full[acc.len() as int] == x);
                        assert(!servers_unique(full));
                    },
                    None => {
                        assert(dec_ids(cur, (n - i) as nat) is None);
                    },
                }
            }
            return None;
        }
        clock.update(x);
        proof {
            let nacc = clock.entries_view();
            assert(nacc == acc.push(x));
            assert forall|a: int, b: int| 0 <= a < b < nacc.len() implies nacc[a].server != nacc[b].server by {
                if b == nacc.len() - 1 {
                    assert(nacc[a] == acc[a]);
                    assert(map_of(acc).contains_key(acc[a].server));
                }
            }
            match dec_ids(buf@.skip(q as int), (n - i - 1) as nat) {
                Some((xs, r)) => {
                    assert(dec_ids(cur, (n - i) as nat) == Some((seq![x] + xs, r)));
                    assert(acc + (seq![x] + xs) =~= nacc + xs);
                },
                None => {
                    assert(dec_ids(cur, (n - i) as nat) is None);
                },
            }
        }
        p = q;
        i = i + 1;
    }
    proof {
        assert(clock.entries_view() + Seq::<EventId>::empty() =~= clock.entries_view());
    }
    Some((clock, p))
}

/// Reads the wire form of an event: `None` unless the whole input is one
/// encoded event.
pub fn decode_event(buf: &[u8]) -> (r: Option<Event>)
    ensures
        match (r, dec_event(buf@)) {
            (Some(e), Some(v)) => e@ == v && e.wf(),
            (None, None) => true,
            _ => false,
        },
{
    let k_id: [u8; 2] = [105, 100];
    assert(k_id@ =~= key_id());
    let k_time: [u8; 4] = [116, 105, 109, 101];
    assert(k_time@ =~= key_time());
    let k_clock: [u8; 5] = [99, 108, 111, 99, 107];
    assert(k_clock@ =~= key_clock());
    let k_target: [u8; 6] = [116, 97, 114, 103, 101, 116];
    assert(k_target@ =~= key_target());
    let k_details: [u8; 7] = [100, 101, 116, 97, 105, 108, 115];
    assert(k_details@ =~= key_details());
    assert(buf@.skip(0) =~= buf@);
    let p0 = read_key(buf, 0, k_id.as_slice())?;
    let (id, p1) = read_id(buf, p0)?;
    let q1 = read_key(buf, p1, k_time.as_slice())?;
    let (timestamp, p2) = read_i64(buf, q1)?;
    let q2 = read_key(buf, p2, k_clock.as_slice())?;
    let (clock, p3) = read_clock(buf, q2)?;
    let q3 = read_key(buf, p3, k_target.as_slice())?;
    let (target, p4) = read_target(buf, q3)?;
    let q4 = read_key(buf, p4, k_details.as_slice())?;
    let (details, p5) = read_details(buf, q4)?;
    if p5 != buf.len() {
        return None;
    }
    Some(Event { id, timestamp, clock, target, details })
}

/// Serialising an event and reading the bytes back gives the same event:
/// `bytes` is what `encode_event(e)` returned and `r` what `decode_event`
/// made of it.
pub proof fn lemma_serialize_round_trip(e: Event, bytes: Seq<u8>, r: Option<Event>)
    requires
        view_wf(e@),
        bytes == enc_event(e@),
        match (r, dec_event(bytes)) {
            (Some(d), Some(v)) => d@ == v && d.wf(),
            (None, None) => true,
            _ => false,
        },
    ensures
        r matches Some(d) && d@ == e@,
{
    lemma_event_round_trip(e@);
}

} // verus!

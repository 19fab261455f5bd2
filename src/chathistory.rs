//! The CHATHISTORY query engine over the history log.
use vstd::prelude::*;
use crate::ids::UserId;
use crate::change::{Change, NetworkStateChange, TargetView, MessageTarget};
use crate::history::{HistoryLog, HistoryLogEntry, contains_id, entry_visible};
use crate::text::{bytes_eq, copy_bytes, push_all};
use crate::parse::{
    FailCode, HistoryFail, is_word_upper, limit_value, make_text_cannot_fetch, make_text_invalid_limit,
    make_text_invalid_subcommand, msgref_outcome, parse_limit, parse_msgref, text_cannot_fetch, text_invalid_limit,
    text_invalid_subcommand, upper,
};

verus! {

/// The name under which an entry is listed for user `u`: for a message, the
/// other party (the sender where `u` received it privately, else the
/// recipient); other changes are not replayed.
pub open spec fn entry_target(c: Change, u: UserId) -> Option<Seq<u8>> {
    match c {
        Change::NewMessage { source_nick, target, .. } => match target {
            TargetView::User(v, n) => if v == u { Some(source_nick) } else { Some(n) },
            TargetView::Channel(_, n) => Some(n),
        },
        _ => None,
    }
}

/// The target name of `entry` as seen by `for_user`.
pub fn target_name_for_entry(for_user: UserId, entry: &HistoryLogEntry) -> (r: Option<Vec<u8>>)
    ensures
        match (r, entry_target(entry.details@, for_user)) {
            (Some(a), Some(b)) => a@ == b,
            (None, None) => true,
            _ => false,
        },
{
    match &entry.details {
        NetworkStateChange::NewMessage { source_nick, target, .. } => match target {
            MessageTarget::User(v, n) => if *v == for_user {
                Some(copy_bytes(source_nick.as_slice()))
            } else {
                Some(copy_bytes(n.as_slice()))
            },
            MessageTarget::Channel(_, n) => Some(copy_bytes(n.as_slice())),
        },
        _ => None,
    }
}

/// A window of timestamps, each end open or closed, or unbounded.
#[derive(Clone, Copy, Debug, PartialEq, Eq, Structural)]
pub struct Window {
    pub after: Option<i64>,
    pub after_inclusive: bool,
    pub before: Option<i64>,
    pub before_inclusive: bool,
}

pub open spec fn in_window(w: Window, ts: i64) -> bool {
    &&& match w.after {
        Some(a) => if w.after_inclusive { ts >= a } else { ts > a },
        None => true,
    }
    &&& match w.before {
        Some(b) => if w.before_inclusive { ts <= b } else { ts < b },
        None => true,
    }
}

pub fn window_contains(w: Window, ts: i64) -> (r: bool)
    ensures
        r == in_window(w, ts),
{
    let lo = match w.after {
        Some(a) => if w.after_inclusive { ts >= a } else { ts > a },
        None => true,
    };
    let hi = match w.before {
        Some(b) => if w.before_inclusive { ts <= b } else { ts < b },
        None => true,
    };
    lo && hi
}

/// Entry `j` is visible to `u`, lies in `w` and is listed under `target`.
pub open spec fn matches_entry(entries: Seq<HistoryLogEntry>, u: UserId, target: Seq<u8>, w: Window, j: int) -> bool {
    &&& entry_visible(entries, j, u)
    &&& in_window(w, entries[j].timestamp)
    &&& entry_target(entries[j].details@, u) == Some(target)
}

/// Indices, ascending, of the matching entries among the first `n`.
pub open spec fn selected(entries: Seq<HistoryLogEntry>, u: UserId, target: Seq<u8>, w: Window, n: int) -> Seq<usize>
    decreases n,
{
    if n <= 0 {
        Seq::empty()
    } else if matches_entry(entries, u, target, w, n - 1) {
        selected(entries, u, target, w, n - 1).push((n - 1) as usize)
    } else {
        selected(entries, u, target, w, n - 1)
    }
}

/// The first `n` elements (all, where there are fewer).
pub open spec fn first_n<A>(s: Seq<A>, n: int) -> Seq<A> {
    if n < s.len() { s.take(n) } else { s }
}

/// The last `n` elements (all, where there are fewer).
pub open spec fn last_n<A>(s: Seq<A>, n: int) -> Seq<A> {
    if n < s.len() { s.skip(s.len() - n) } else { s }
}

proof fn lemma_selected_empty(entries: Seq<HistoryLogEntry>, u: UserId, target: Seq<u8>, w: Window, n: int)
    requires
        forall|ts: i64| !in_window(w, ts),
    ensures
        selected(entries, u, target, w, n).len() == 0,
    decreases n,
{
    if n > 0 {
        lemma_selected_empty(entries, u, target, w, n - 1);
    }
}

/// BETWEEN with equal bounds selects nothing, and is answered with an empty
/// batch rather than a refusal.
pub proof fn lemma_between_equal_bounds(entries: Seq<HistoryLogEntry>, u: UserId, target: Seq<u8>, t: i64, limit: usize, r: HistoryReply)
    requires
        reply_ok(entries, u, Seq::empty(), QueryView::Between { target, start: t, end: t, limit }, r),
    ensures
        query_entries(entries, u, QueryView::Between { target, start: t, end: t, limit }).len() == 0,
        r matches HistoryReply::Batch { target: name, entries: es } && name@ == target && es@.len() == 0,
{
    lemma_selected_empty(entries, u, target, window_between(t, true, t), entries.len() as int);
}

impl HistoryLog {
    /// Indices, ascending, of the entries visible to `u`, inside `w` and
    /// listed under `target`.
    pub fn select(&self, u: UserId, target: &[u8], w: Window) -> (r: Vec<usize>)
        ensures
            r@ == selected(self.entries@, u, target@, w, self.entries@.len() as int),
    {
        let mut r: Vec<usize> = Vec::new();
        let mut i: usize = 0;
        while i < self.entries.len()
            invariant
                i <= self.entries@.len(),
                r@ == selected(self.entries@, u, target@, w, i as int),
            decreases self.entries@.len() - i,
        {
            let e = &self.entries[i];
            if contains_id(&e.users, u) && window_contains(w, e.timestamp) {
                match target_name_for_entry(u, e) {
                    Some(name) => {
                        if bytes_eq(name.as_slice(), target) {
                            r.push(i);
                        }
                    },
                    None => {},
                }
            }
            i = i + 1;
        }
        r
    }
}

/// The last `n` elements of `s`, appended to `out`.
pub fn push_last(out: &mut Vec<usize>, s: &Vec<usize>, n: usize)
    ensures
        final(out)@ == old(out)@ + last_n(s@, n as int),
{
    let start = if n < s.len() { s.len() - n } else { 0 };
    let ghost o = out@;
    let mut i: usize = start;
    while i < s.len()
        invariant
            start <= i <= s@.len(),
            out@ == o + s@.subrange(start as int, i as int),
        decreases s@.len() - i,
    {
        out.push(s[i]);
        i = i + 1;
        assert(out@ =~= o + s@.subrange(start as int, i as int));
    }
    assert(s@.subrange(start as int, s@.len() as int) =~= last_n(s@, n as int));
}

/// Appends the first `n` elements of `s` to `out`.
pub fn push_first(out: &mut Vec<usize>, s: &Vec<usize>, n: usize)
    ensures
        final(out)@ == old(out)@ + first_n(s@, n as int),
{
    let end = if n < s.len() { n } else { s.len() };
    let ghost o = out@;
    let mut i: usize = 0;
    while i < end
        invariant
            end <= s@.len(),
            i <= end,
            out@ == o + s@.take(i as int),
        decreases end - i,
    {
        out.push(s[i]);
        i = i + 1;
        assert(out@ =~= o + s@.take(i as int));
    }
    assert(s@.take(s@.len() as int) =~= s@ || end < s@.len());
    assert(s@.take(end as int) =~= first_n(s@, n as int));
}

/// A parsed CHATHISTORY request.
#[derive(Debug)]
pub enum HistoryQuery {
    Targets { from: i64, to: i64, limit: usize },
    Latest { target: Vec<u8>, to: Option<i64>, limit: usize },
    Before { target: Vec<u8>, from: i64, limit: usize },
    After { target: Vec<u8>, from: i64, limit: usize },
    Around { target: Vec<u8>, at: i64, limit: usize },
    Between { target: Vec<u8>, start: i64, end: i64, limit: usize },
}

/// The mathematical form of a `HistoryQuery`.
pub enum QueryView {
    Targets { from: i64, to: i64, limit: usize },
    Latest { target: Seq<u8>, to: Option<i64>, limit: usize },
    Before { target: Seq<u8>, from: i64, limit: usize },
    After { target: Seq<u8>, from: i64, limit: usize },
    Around { target: Seq<u8>, at: i64, limit: usize },
    Between { target: Seq<u8>, start: i64, end: i64, limit: usize },
}

impl View for HistoryQuery {
    type V = QueryView;

    open spec fn view(&self) -> QueryView {
        match self {
            HistoryQuery::Targets { from, to, limit } => QueryView::Targets { from: *from, to: *to, limit: *limit },
            HistoryQuery::Latest { target, to, limit } => QueryView::Latest { target: target@, to: *to, limit: *limit },
            HistoryQuery::Before { target, from, limit } => QueryView::Before { target: target@, from: *from, limit: *limit },
            HistoryQuery::After { target, from, limit } => QueryView::After { target: target@, from: *from, limit: *limit },
            HistoryQuery::Around { target, at, limit } => QueryView::Around { target: target@, at: *at, limit: *limit },
            HistoryQuery::Between { target, start, end, limit } => QueryView::Between {
                target: target@,
                start: *start,
                end: *end,
                limit: *limit,
            },
        }
    }
}

/// One conversation listed by TARGETS, with the time of its newest entry.
#[derive(Debug)]
pub struct TargetTime {
    pub name: Vec<u8>,
    pub timestamp: i64,
}

/// What a request is answered with.
#[derive(Debug)]
pub enum HistoryReply {
    Fail(HistoryFail),
    /// Indices into the history log, in ascending time order.
    Batch { target: Vec<u8>, entries: Vec<usize> },
    Targets { targets: Vec<TargetTime> },
}

pub open spec fn target_times_view(s: Seq<TargetTime>) -> Seq<(Seq<u8>, i64)> {
    s.map_values(|t: TargetTime| (t.name@, t.timestamp))
}

/// Entry `j` counts for TARGETS: visible to `u`, inside `w`, and listed
/// under some name.
pub open spec fn target_candidate(entries: Seq<HistoryLogEntry>, u: UserId, w: Window, j: int) -> bool {
    entry_visible(entries, j, u) && in_window(w, entries[j].timestamp) && entry_target(entries[j].details@, u) is Some
}

/// The conversations among the `k` newest entries, newest first, each once
/// with the time of its newest entry.
pub open spec fn target_scan(entries: Seq<HistoryLogEntry>, u: UserId, w: Window, k: int) -> Seq<(Seq<u8>, i64)>
    decreases k,
{
    if k <= 0 || k > entries.len() {
        Seq::empty()
    } else {
        let prev = target_scan(entries, u, w, k - 1);
        let j = entries.len() - k;
        if target_candidate(entries, u, w, j) {
            let n = entry_target(entries[j].details@, u)->Some_0;
            if exists|x: int| 0 <= x < prev.len() && (#[trigger] prev[x]).0 == n {
                prev
            } else {
                prev.push((n, entries[j].timestamp))
            }
        } else {
            prev
        }
    }
}

pub open spec fn window_between(lo: i64, lo_inclusive: bool, hi: i64) -> Window {
    Window { after: Some(lo), after_inclusive: lo_inclusive, before: Some(hi), before_inclusive: false }
}

pub open spec fn min_i64(a: i64, b: i64) -> i64 {
    if a <= b { a } else { b }
}

pub open spec fn max_i64(a: i64, b: i64) -> i64 {
    if a <= b { b } else { a }
}

/// The entries that a history query returns, in ascending order. BEFORE and
/// AFTER exclude the given time; AROUND takes half the limit up to and
/// including the anchor and half after it; BETWEEN takes `[start, end)` once
/// the two are put in order; LATEST takes the newest entries after `to`.
pub open spec fn query_entries(entries: Seq<HistoryLogEntry>, u: UserId, q: QueryView) -> Seq<usize> {
    let n = entries.len() as int;
    match q {
        QueryView::Latest { target, to, limit } => last_n(
            selected(entries, u, target, Window { after: to, after_inclusive: false, before: None, before_inclusive: false }, n),
            limit as int,
        ),
        QueryView::Before { target, from, limit } => last_n(
            selected(entries, u, target, Window { after: None, after_inclusive: false, before: Some(from), before_inclusive: false }, n),
            limit as int,
        ),
        QueryView::After { target, from, limit } => first_n(
            selected(entries, u, target, Window { after: Some(from), after_inclusive: false, before: None, before_inclusive: false }, n),
            limit as int,
        ),
        QueryView::Around { target, at, limit } => last_n(
            selected(entries, u, target, Window { after: None, after_inclusive: false, before: Some(at), before_inclusive: true }, n),
            (limit / 2) as int,
        ) + first_n(
            selected(entries, u, target, Window { after: Some(at), after_inclusive: false, before: None, before_inclusive: false }, n),
            (limit / 2) as int,
        ),
        QueryView::Between { target, start, end, limit } => first_n(
            selected(entries, u, target, window_between(min_i64(start, end), true, max_i64(start, end)), n),
            limit as int,
        ),
        QueryView::Targets { .. } => Seq::empty(),
    }
}

pub open spec fn query_target(q: QueryView) -> Seq<u8> {
    match q {
        QueryView::Latest { target, .. } => target,
        QueryView::Before { target, .. } => target,
        QueryView::After { target, .. } => target,
        QueryView::Around { target, .. } => target,
        QueryView::Between { target, .. } => target,
        QueryView::Targets { .. } => Seq::empty(),
    }
}

/// The reply to `q` from user `u`, whose request named `sub`. TARGETS lists
/// conversations inside the open window between its two times, newest first,
/// at most `limit`. BETWEEN always answers with a batch, empty or not; the
/// other history queries answer an empty result with `InvalidTarget`.
pub open spec fn reply_ok(entries: Seq<HistoryLogEntry>, u: UserId, sub: Seq<u8>, q: QueryView, r: HistoryReply) -> bool {
    match q {
        QueryView::Targets { from, to, limit } => r matches HistoryReply::Targets { targets } && target_times_view(
            targets@,
        ) == first_n(
            target_scan(
                entries,
                u,
                window_between(min_i64(from, to), false, max_i64(from, to)),
                entries.len() as int,
            ),
            limit as int,
        ),
        QueryView::Between { target, .. } => r matches HistoryReply::Batch { target: t, entries: es } && t@ == target
            && es@ == query_entries(entries, u, q),
        _ => if query_entries(entries, u, q).len() == 0 {
            r matches HistoryReply::Fail(f) && f.code == FailCode::InvalidTarget && f.context@ == sub + seq![32u8]
                + query_target(q) && f.description@ == text_cannot_fetch() + query_target(q)
        } else {
            r matches HistoryReply::Batch { target: t, entries: es } && t@ == query_target(q) && es@
                == query_entries(entries, u, q)
        },
    }
}

impl HistoryLog {
    /// The conversations of `u` inside `w`, newest first, each once with the
    /// time of its newest entry, at most `limit` of them.
    pub fn list_targets(&self, u: UserId, w: Window, limit: usize) -> (r: Vec<TargetTime>)
        ensures
            target_times_view(r@) == first_n(target_scan(self.entries@, u, w, self.entries@.len() as int), limit as int),
    {
        let n = self.entries.len();
        let mut found: Vec<TargetTime> = Vec::new();
        let mut k: usize = 0;
        while k < n
            invariant
                n == self.entries@.len(),
                k <= n,
                target_times_view(found@) == target_scan(self.entries@, u, w, k as int),
            decreases n - k,
        {
            let j = n - 1 - k;
            let e = &self.entries[j];
            let ghost prev = target_times_view(found@);
            if contains_id(&e.users, u) && window_contains(w, e.timestamp) {
                match target_name_for_entry(u, e) {
                    Some(name) => {
                        let mut seen = false;
                        let mut x: usize = 0;
                        while x < found.len()
                            invariant
                                x <= found@.len(),
                                prev == target_times_view(found@),
                                seen ==> exists|y: int| 0 <= y < prev.len() && (#[trigger] prev[y]).0 == name@,
                                !seen ==> forall|y: int| 0 <= y < x ==> (#[trigger] prev[y]).0 != name@,
                            decreases found@.len() - x,
                        {
                            assert(prev[x as int].0 == found@[x as int].name@);
                            if bytes_eq(found[x].name.as_slice(), name.as_slice()) {
                                seen = true;
                            }
                            x = x + 1;
                        }
                        if !seen {
                            found.push(TargetTime { name, timestamp: e.timestamp });
                            assert(target_times_view(found@) =~= prev.push((name@, e.timestamp)));
                        }
                    },
                    None => {},
                }
            }
            k = k + 1;
        }
        let mut r: Vec<TargetTime> = Vec::new();
        let ghost all = target_times_view(found@);
        assert(all.len() == found@.len());
        let mut rest = found;
        let end = if limit < rest.len() { limit } else { rest.len() };
        let mut i: usize = 0;
        while i < end
            invariant
                end <= all.len(),
                end as int == (if (limit as int) < all.len() { limit as int } else { all.len() as int }),
                i <= end,
                r@.len() == i,
                rest@.len() == all.len() - i,
                target_times_view(rest@) == all.skip(i as int),
                target_times_view(r@) == all.take(i as int),
            decreases end - i,
        {
            let ghost rb = rest@;
            assert(target_times_view(rb).len() == rb.len());
            let t = rest.remove(0);
            assert(target_times_view(rest@) =~= all.skip(i + 1)) by {
                assert(rest@ =~= rb.drop_first());
                assert forall|k: int| 0 <= k < rest@.len() implies target_times_view(rest@)[k] == all.skip(i + 1)[k] by {
                    assert(rest@[k] == rb[k + 1]);
                    assert(target_times_view(rb)[k + 1] == all.skip(i as int)[k + 1]);
                }
            }
            assert((t.name@, t.timestamp) == all[i as int]) by {
                assert(rb[0] == t);
                assert(target_times_view(rb)[0] == all.skip(i as int)[0]);
            }
            let ghost r_before = r@;
            r.push(t);
            i = i + 1;
            assert forall|k: int| 0 <= k < r@.len() implies target_times_view(r@)[k] == all.take(i as int)[k] by {
                if k < r@.len() - 1 {
                    assert(r@[k] == r_before[k]);
                    assert(target_times_view(r_before)[k] == all.take(i - 1)[k]);
                }
            }
            assert(target_times_view(r@) =~= all.take(i as int));
        }
        assert(all.take(all.len() as int) =~= all);
        r
    }

    /// The history of `u` with `target`: the last `back_limit` entries inside
    /// `back` and the first `fwd_limit` entries inside `fwd`, in ascending
    /// order (see `send_history_entries`).
    pub fn send_history_for_target(
        &self,
        u: UserId,
        subcommand: &[u8],
        target: &[u8],
        back: Window,
        back_limit: usize,
        fwd: Window,
        fwd_limit: usize,
    ) -> (r: HistoryReply)
        ensures
            history_reply(
                subcommand@,
                target@,
                last_n(selected(self.entries@, u, target@, back, self.entries@.len() as int), back_limit as int)
                    + first_n(selected(self.entries@, u, target@, fwd, self.entries@.len() as int), fwd_limit as int),
                r,
            ),
    {
        let mut backward: Vec<usize> = Vec::new();
        let mut forward: Vec<usize> = Vec::new();
        let ghost bsel = selected(self.entries@, u, target@, back, self.entries@.len() as int);
        let ghost fsel = selected(self.entries@, u, target@, fwd, self.entries@.len() as int);
        if back_limit != 0 {
            let sel = self.select(u, target, back);
            let mut newest: Vec<usize> = Vec::new();
            push_last(&mut newest, &sel, back_limit);
            let mut k: usize = newest.len();
            while k > 0
                invariant
                    k <= newest@.len(),
                    backward@.len() == newest@.len() - k,
                    forall|a: int| 0 <= a < backward@.len() ==> backward@[a] == newest@[newest@.len() - 1 - a],
                decreases k,
            {
                k = k - 1;
                backward.push(newest[k]);
            }
            assert(reversed(backward@) =~= newest@);
            assert(newest@ =~= last_n(bsel, back_limit as int));
        } else {
            assert(reversed(backward@) =~= last_n(bsel, 0));
        }
        if fwd_limit != 0 {
            let sel = self.select(u, target, fwd);
            push_first(&mut forward, &sel, fwd_limit);
            assert(forward@ =~= first_n(fsel, fwd_limit as int));
        } else {
            assert(forward@ =~= first_n(fsel, 0));
        }
        send_history_entries(subcommand, target, backward, forward)
    }

    /// Answers a parsed request of user `u`; `subcommand` is the request's
    /// subcommand as sent, used in the context of a refusal.
    pub fn run_query(&self, u: UserId, subcommand: &[u8], q: &HistoryQuery) -> (r: HistoryReply)
        ensures
            reply_ok(self.entries@, u, subcommand@, q@, r),
    {
        let none = Window { after: None, after_inclusive: false, before: None, before_inclusive: false };
        let ghost n = self.entries@.len() as int;
        match q {
            HistoryQuery::Targets { from, to, limit } => {
                let lo = if *from <= *to { *from } else { *to };
                let hi = if *from <= *to { *to } else { *from };
                let w = Window { after: Some(lo), after_inclusive: false, before: Some(hi), before_inclusive: false };
                let targets = self.list_targets(u, w, *limit);
                HistoryReply::Targets { targets }
            },
            HistoryQuery::Latest { target, to, limit } => {
                let r = self.send_history_for_target(u, subcommand, target.as_slice(), Window { after: *to, ..none }, *limit, none, 0);
                proof {
                    let s = selected(self.entries@, u, target@, none, n);
                    assert(first_n(s, 0) =~= Seq::<usize>::empty());
                    assert(query_entries(self.entries@, u, q@) =~= last_n(selected(self.entries@, u, target@, Window { after: *to, ..none }, n), *limit as int) + first_n(s, 0));
                }
                r
            },
            HistoryQuery::Before { target, from, limit } => {
                let r = self.send_history_for_target(u, subcommand, target.as_slice(), Window { before: Some(*from), ..none }, *limit, none, 0);
                proof {
                    let s = selected(self.entries@, u, target@, none, n);
                    assert(first_n(s, 0) =~= Seq::<usize>::empty());
                    assert(query_entries(self.entries@, u, q@) =~= last_n(selected(self.entries@, u, target@, Window { before: Some(*from), ..none }, n), *limit as int) + first_n(s, 0));
                }
                r
            },
            HistoryQuery::After { target, from, limit } => {
                let r = self.send_history_for_target(u, subcommand, target.as_slice(), none, 0, Window { after: Some(*from), ..none }, *limit);
                proof {
                    let s = selected(self.entries@, u, target@, none, n);
                    assert(last_n(s, 0) =~= Seq::<usize>::empty());
                    assert(query_entries(self.entries@, u, q@) =~= last_n(s, 0) + first_n(selected(self.entries@, u, target@, Window { after: Some(*from), ..none }, n), *limit as int));
                }
                r
            },
            HistoryQuery::Around { target, at, limit } => {
                self.send_history_for_target(
                    u,
                    subcommand,
                    target.as_slice(),
                    Window { before: Some(*at), before_inclusive: true, ..none },
                    *limit / 2,
                    Window { after: Some(*at), ..none },
                    *limit / 2,
                )
            },
            HistoryQuery::Between { target, start, end, limit } => {
                let lo = if *start <= *end { *start } else { *end };
                let hi = if *start <= *end { *end } else { *start };
                let w = Window { after: Some(lo), after_inclusive: true, before: Some(hi), before_inclusive: false };
                let sel = self.select(u, target.as_slice(), w);
                let mut out: Vec<usize> = Vec::new();
                push_first(&mut out, &sel, *limit);
                assert(out@ =~= query_entries(self.entries@, u, q@));
                HistoryReply::Batch { target: copy_bytes(target.as_slice()), entries: out }
            },
        }
    }
}

/// `s` back to front.
pub open spec fn reversed<A>(s: Seq<A>) -> Seq<A> {
    Seq::new(s.len(), |i: int| s[s.len() - 1 - i])
}

/// The reply to a history request whose entries, in ascending order, are
/// `entries`: a refusal with `InvalidTarget` when there are none, else a
/// batch.
pub open spec fn history_reply(sub: Seq<u8>, target: Seq<u8>, entries: Seq<usize>, r: HistoryReply) -> bool {
    if entries.len() == 0 {
        r matches HistoryReply::Fail(f) && f.code == FailCode::InvalidTarget && f.context@ == sub + seq![32u8] + target
            && f.description@ == text_cannot_fetch() + target
    } else {
        r matches HistoryReply::Batch { target: t, entries: es } && t@ == target && es@ == entries
    }
}

/// Sends the entries found for `target`: those found going back in time
/// (newest first) turned around, then those found going forward; or a
/// refusal where there are none.
pub fn send_history_entries(subcommand: &[u8], target: &[u8], backward: Vec<usize>, forward: Vec<usize>) -> (r: HistoryReply)
    ensures
        history_reply(subcommand@, target@, reversed(backward@) + forward@, r),
{
    if backward.len() == 0 && forward.len() == 0 {
        let mut context = copy_bytes(subcommand);
        context.push(32);
        push_all(&mut context, target);
        assert(context@ =~= subcommand@ + seq![32u8] + target@);
        let mut description = make_text_cannot_fetch();
        push_all(&mut description, target);
        assert((reversed(backward@) + forward@).len() == 0);
        return HistoryReply::Fail(HistoryFail { code: FailCode::InvalidTarget, context, description });
    }
    let mut entries: Vec<usize> = Vec::new();
    let mut k: usize = backward.len();
    while k > 0
        invariant
            k <= backward@.len(),
            entries@ == reversed(backward@).take(backward@.len() - k),
        decreases k,
    {
        k = k - 1;
        entries.push(backward[k]);
        assert(entries@ =~= reversed(backward@).take(backward@.len() - k));
    }
    assert(reversed(backward@).take(backward@.len() as int) =~= reversed(backward@));
    let ghost before = entries@;
    let mut i: usize = 0;
    while i < forward.len()
        invariant
            i <= forward@.len(),
            entries@ == before + forward@.take(i as int),
        decreases forward@.len() - i,
    {
        entries.push(forward[i]);
        i = i + 1;
        assert(entries@ =~= before + forward@.take(i as int));
    }
    assert(forward@.take(forward@.len() as int) =~= forward@);
    HistoryReply::Batch { target: copy_bytes(target), entries }
}

/// CHATHISTORY subcommands.
#[derive(Clone, Copy, Debug, PartialEq, Eq, Structural)]
pub enum Subcommand {
    Targets,
    Latest,
    Before,
    After,
    Around,
    Between,
}

/// The subcommand named by `s`, in any case.
pub open spec fn subcommand_of(s: Seq<u8>) -> Option<Subcommand> {
    let u = upper(s);
    if u == seq![84u8, 65, 82, 71, 69, 84, 83] {
        Some(Subcommand::Targets)
    } else if u == seq![76u8, 65, 84, 69, 83, 84] {
        Some(Subcommand::Latest)
    } else if u == seq![66u8, 69, 70, 79, 82, 69] {
        Some(Subcommand::Before)
    } else if u == seq![65u8, 70, 84, 69, 82] {
        Some(Subcommand::After)
    } else if u == seq![65u8, 82, 79, 85, 78, 68] {
        Some(Subcommand::Around)
    } else if u == seq![66u8, 69, 84, 87, 69, 69, 78] {
        Some(Subcommand::Between)
    } else {
        None
    }
}

/// Reads a subcommand name.
pub fn parse_subcommand(s: &[u8]) -> (r: Option<Subcommand>)
    ensures
        r == subcommand_of(s@),
{
    let targets: [u8; 7] = [84, 65, 82, 71, 69, 84, 83];
    let latest: [u8; 6] = [76, 65, 84, 69, 83, 84];
    let before: [u8; 6] = [66, 69, 70, 79, 82, 69];
    let after: [u8; 5] = [65, 70, 84, 69, 82];
    let around: [u8; 6] = [65, 82, 79, 85, 78, 68];
    let between: [u8; 7] = [66, 69, 84, 87, 69, 69, 78];
    assert(targets@ =~= seq![84u8, 65, 82, 71, 69, 84, 83]);
    assert(latest@ =~= seq![76u8, 65, 84, 69, 83, 84]);
    assert(before@ =~= seq![66u8, 69, 70, 79, 82, 69]);
    assert(after@ =~= seq![65u8, 70, 84, 69, 82]);
    assert(around@ =~= seq![65u8, 82, 79, 85, 78, 68]);
    assert(between@ =~= seq![66u8, 69, 84, 87, 69, 69, 78]);
    if is_word_upper(s, targets.as_slice()) {
        Some(Subcommand::Targets)
    } else if is_word_upper(s, latest.as_slice()) {
        Some(Subcommand::Latest)
    } else if is_word_upper(s, before.as_slice()) {
        Some(Subcommand::Before)
    } else if is_word_upper(s, after.as_slice()) {
        Some(Subcommand::After)
    } else if is_word_upper(s, around.as_slice()) {
        Some(Subcommand::Around)
    } else if is_word_upper(s, between.as_slice()) {
        Some(Subcommand::Between)
    } else {
        None
    }
}

/// The refusal of a limit that does not parse.
pub open spec fn bad_limit() -> (FailCode, Seq<u8>, Seq<u8>) {
    (FailCode::InvalidParams, Seq::empty(), text_invalid_limit())
}

/// A message reference as a time, or its refusal.
pub open spec fn time_of(sub: Seq<u8>, target: Option<Seq<u8>>, m: Seq<u8>) -> Result<i64, (FailCode, Seq<u8>, Seq<u8>)> {
    match msgref_outcome(sub, target, m) {
        Ok(t) => Ok(t as i64),
        Err(e) => Err(e),
    }
}

/// What a request parses to. The arguments are read in order, and the first
/// that fails decides the refusal: an unknown subcommand, a bad message
/// reference (see `msgref_outcome`), or a bad limit. LATEST takes `*` for
/// "no bound"; BETWEEN reads its limit from the fourth argument.
pub open spec fn parse_outcome(sub: Seq<u8>, a1: Seq<u8>, a2: Seq<u8>, a3: Seq<u8>, a4: Option<Seq<u8>>) -> Result<QueryView, (FailCode, Seq<u8>, Seq<u8>)> {
    match subcommand_of(sub) {
        None => Err((FailCode::InvalidParams, sub, text_invalid_subcommand())),
        Some(Subcommand::Targets) => match time_of(sub, None, a1) {
            Err(e) => Err(e),
            Ok(from) => match time_of(sub, None, a2) {
                Err(e) => Err(e),
                Ok(to) => match limit_value(a3) {
                    None => Err(bad_limit()),
                    Some(l) => Ok(QueryView::Targets { from, to, limit: l as usize }),
                },
            },
        },
        Some(Subcommand::Latest) => {
            let to: Result<Option<i64>, (FailCode, Seq<u8>, Seq<u8>)> = if a2 == seq![42u8] {
                Ok(None)
            } else {
                match time_of(sub, Some(a1), a2) {
                    Ok(t) => Ok(Some(t)),
                    Err(e) => Err(e),
                }
            };
            match to {
                Err(e) => Err(e),
                Ok(to) => match limit_value(a3) {
                    None => Err(bad_limit()),
                    Some(l) => Ok(QueryView::Latest { target: a1, to, limit: l as usize }),
                },
            }
        },
        Some(Subcommand::Between) => match time_of(sub, Some(a1), a2) {
            Err(e) => Err(e),
            Ok(start) => match time_of(sub, Some(a1), a3) {
                Err(e) => Err(e),
                Ok(end) => match a4 {
                    None => Err(bad_limit()),
                    Some(a4) => match limit_value(a4) {
                        None => Err(bad_limit()),
                        Some(l) => Ok(QueryView::Between { target: a1, start, end, limit: l as usize }),
                    },
                },
            },
        },
        Some(k) => match time_of(sub, Some(a1), a2) {
            Err(e) => Err(e),
            Ok(t) => match limit_value(a3) {
                None => Err(bad_limit()),
                Some(l) => Ok(
                    match k {
                        Subcommand::Before => QueryView::Before { target: a1, from: t, limit: l as usize },
                        Subcommand::After => QueryView::After { target: a1, from: t, limit: l as usize },
                        _ => QueryView::Around { target: a1, at: t, limit: l as usize },
                    },
                ),
            },
        },
    }
}

fn limit_fail() -> (r: HistoryFail)
    ensures
        r.code == bad_limit().0,
        r.context@ == bad_limit().1,
        r.description@ == bad_limit().2,
{
    HistoryFail { code: FailCode::InvalidParams, context: Vec::new(), description: make_text_invalid_limit() }
}

/// Reads the arguments of a CHATHISTORY request.
pub fn parse_chathistory(subcommand: &[u8], arg_1: &[u8], arg_2: &[u8], arg_3: &[u8], arg_4: Option<&[u8]>) -> (r: Result<HistoryQuery, HistoryFail>)
    ensures
        match (r, parse_outcome(subcommand@, arg_1@, arg_2@, arg_3@, match arg_4 { Some(a) => Some(a@), None => None })) {
            (Ok(q), Ok(v)) => q@ == v,
            (Err(f), Err((code, ctx, d))) => f.code == code && f.context@ == ctx && f.description@ == d,
            _ => false,
        },
{
    let sub = match parse_subcommand(subcommand) {
        Some(k) => k,
        None => {
            return Err(
                HistoryFail {
                    code: FailCode::InvalidParams,
                    context: copy_bytes(subcommand),
                    description: make_text_invalid_subcommand(),
                },
            );
        },
    };
    match sub {
        Subcommand::Targets => {
            let from = parse_msgref(subcommand, None, arg_1)?;
            let to = parse_msgref(subcommand, None, arg_2)?;
            match parse_limit(arg_3) {
                Some(limit) => Ok(HistoryQuery::Targets { from, to, limit }),
                None => Err(limit_fail()),
            }
        },
        Subcommand::Latest => {
            let star: [u8; 1] = [42];
            assert(star@ =~= seq![42u8]);
            let to = if bytes_eq(arg_2, star.as_slice()) {
                None
            } else {
                Some(parse_msgref(subcommand, Some(arg_1), arg_2)?)
            };
            match parse_limit(arg_3) {
                Some(limit) => Ok(HistoryQuery::Latest { target: copy_bytes(arg_1), to, limit }),
                None => Err(limit_fail()),
            }
        },
        Subcommand::Between => {
            let start = parse_msgref(subcommand, Some(arg_1), arg_2)?;
            let end = parse_msgref(subcommand, Some(arg_1), arg_3)?;
            let limit = match arg_4 {
                Some(a) => parse_limit(a),
                None => None,
            };
            match limit {
                Some(limit) => Ok(HistoryQuery::Between { target: copy_bytes(arg_1), start, end, limit }),
                None => Err(limit_fail()),
            }
        },
        _ => {
            let t = parse_msgref(subcommand, Some(arg_1), arg_2)?;
            match parse_limit(arg_3) {
                Some(limit) => Ok(
                    match sub {
                        Subcommand::Before => HistoryQuery::Before { target: copy_bytes(arg_1), from: t, limit },
                        Subcommand::After => HistoryQuery::After { target: copy_bytes(arg_1), from: t, limit },
                        _ => HistoryQuery::Around { target: copy_bytes(arg_1), at: t, limit },
                    },
                ),
                None => Err(limit_fail()),
            }
        },
    }
}

/// Answers a CHATHISTORY request of user `for_user`: a refusal where the
/// arguments do not parse, else the reply to the parsed query.
pub fn handle_chathistory(
    log: &HistoryLog,
    for_user: UserId,
    subcommand: &[u8],
    arg_1: &[u8],
    arg_2: &[u8],
    arg_3: &[u8],
    arg_4: Option<&[u8]>,
) -> (r: HistoryReply)
    ensures
        match parse_outcome(subcommand@, arg_1@, arg_2@, arg_3@, match arg_4 { Some(a) => Some(a@), None => None }) {
            Err((code, ctx, d)) => r matches HistoryReply::Fail(f) && f.code == code && f.context@ == ctx && f.description@ == d,
            Ok(q) => reply_ok(log.entries@, for_user, subcommand@, q, r),
        },
{
    match parse_chathistory(subcommand, arg_1, arg_2, arg_3, arg_4) {
        Ok(q) => log.run_query(for_user, subcommand, &q),
        Err(f) => HistoryReply::Fail(f),
    }
}

} // verus!

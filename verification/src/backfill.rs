//! One-off repair for archives written before the mtime of a message was set from the
//! server's INTERNALDATE: those files carry the time they were downloaded, which is what an
//! IMAP server (Dovecot and friends) reports as the message's date, so every mail looks like
//! it arrived during the first sync.
//!
//! Enabled with `"backfill_dates": true` in the config and meant to be removed again once it
//! has run: every folder it has repaired gets a `.dates_backfilled` marker, so a config left
//! on this setting costs nothing beyond that first pass. Deleting the markers makes it run
//! again.

use crate::folder;
use crate::job;
use crate::maildir;
use crate::path;
use crate::text;
use std::collections::BTreeMap;
use vstd::prelude::*;
use vstd::string::StringExecFns;

verus! {

/// The answer for one message to a fetch of UIDs and dates.
#[derive(Debug)]
pub struct DateReply {
    pub uid: Option<u32>,
    /// When the server received the message, as a unix timestamp.
    pub date: Option<i64>,
}

/// What has happened during a repair.
#[derive(Debug)]
pub enum Event {
    /// It begins; the folder has a marker or not.
    Started { marked: bool },
    /// The server reported its dates.
    Dates(Vec<DateReply>),
    /// The date of the message was read, if it can be.
    Mtime(Option<i64>),
    /// The date of the message was set.
    Fixed,
    /// The marker was written.
    Marked,
}

/// What comes next in a repair.
#[derive(Debug)]
pub enum Next {
    /// Nothing: it is over. The message, if there is one, says what was done.
    Finished(Option<String>),
    /// Fetch these items of these messages: the UIDs and dates of all.
    FetchDates { set: &'static str, items: &'static str },
    /// Read the date of this message.
    Check { path: String },
    /// Set the date of this message.
    Fix { path: String, secs: i64 },
    /// Write the empty marker, durably.
    Mark { tmp: String, marker: String },
}

/// A [`Next`] over models.
pub enum NextView {
    Finished(Option<Seq<char>>),
    FetchDates { set: Seq<char>, items: Seq<char> },
    Check { path: Seq<char> },
    Fix { path: Seq<char>, secs: i64 },
    Mark { tmp: Seq<char>, marker: Seq<char> },
}

impl View for Next {
    type V = NextView;

    open spec fn view(&self) -> NextView {
        match *self {
            Next::Finished(None) => NextView::Finished(None),
            Next::Finished(Some(m)) => NextView::Finished(Some(m@)),
            Next::FetchDates { set, items } => NextView::FetchDates { set: set@, items: items@ },
            Next::Check { path } => NextView::Check { path: path@ },
            Next::Fix { path, secs } => NextView::Fix { path: path@, secs },
            Next::Mark { tmp, marker } => NextView::Mark { tmp: tmp@, marker: marker@ },
        }
    }
}

/// A repair of one folder.
#[derive(Debug)]
pub struct Backfill {
    label: String,
    dir: String,
    local: BTreeMap<u32, String>,
    paths: Vec<String>,
    dates: Vec<i64>,
    at: usize,
    fixed: usize,
}

/// A message and the date it is to have.
pub struct Target {
    pub path: Seq<char>,
    pub secs: i64,
}

/// A [`Backfill`] over models.
pub struct BackfillView {
    /// Account and folder, for messages.
    pub label: Seq<char>,
    pub dir: Seq<char>,
    /// Stored messages: UID to path.
    pub local: Map<u32, Seq<char>>,
    /// The messages whose date is still to be compared.
    pub todo: Seq<Target>,
    /// How many dates were set.
    pub fixed: nat,
}

/// Messages and dates, pairwise.
pub open spec fn zipped(paths: Seq<String>, dates: Seq<i64>) -> Seq<Target> {
    Seq::new(paths.len(), |i: int| Target { path: paths[i]@, secs: dates[i] })
}

impl View for Backfill {
    type V = BackfillView;

    closed spec fn view(&self) -> BackfillView {
        BackfillView {
            label: self.label@,
            dir: self.dir@,
            local: maildir::texts(self.local@),
            todo: zipped(self.paths@, self.dates@).skip(self.at as int),
            fixed: self.fixed as nat,
        }
    }
}

/// The message that an answer speaks of, if it is stored here and has a date.
pub open spec fn target_of(local: Map<u32, Seq<char>>, r: DateReply) -> Option<Target> {
    match (r.uid, r.date) {
        (Some(uid), Some(secs)) => if local.contains_key(uid) {
            Some(Target { path: local[uid], secs })
        } else {
            None
        },
        _ => None,
    }
}

/// The messages that the answers speak of, in the order of the answers.
pub open spec fn targets(local: Map<u32, Seq<char>>, replies: Seq<DateReply>) -> Seq<Target> {
    replies.filter_map(|r: DateReply| target_of(local, r))
}

/// What is said at the end.
pub open spec fn words(label: Seq<char>, fixed: nat) -> Option<Seq<char>> {
    if fixed > 0 {
        Some(label + ": "@ + text::decimal(fixed) + " message date(s) restored from the server"@)
    } else {
        None
    }
}

/// The marker of a folder that has been repaired.
pub open spec fn marker_of(dir: Seq<char>) -> Seq<char> {
    path::joined(dir, ".dates_backfilled"@)
}

/// The marker of a folder that has been repaired.
pub fn marker(dir: &str) -> (r: String)
    ensures
        r@ == marker_of(dir@),
{
    path::join(dir, ".dates_backfilled")
}

/// The items of a fetch of UIDs and dates.
pub fn date_items() -> (r: &'static str)
    ensures
        r@ == "(UID INTERNALDATE)"@,
{
    "(UID INTERNALDATE)"
}

/// What comes next: the next message, or the marker once there is none left.
pub open spec fn go_on(s: BackfillView) -> NextView {
    if s.todo.len() > 0 {
        NextView::Check { path: s.todo[0].path }
    } else {
        NextView::Mark {
            tmp: path::joined(path::joined(s.dir, "tmp"@), ".dates_backfilled"@),
            marker: marker_of(s.dir),
        }
    }
}

/// How a repair goes on after an event.
pub open spec fn step(s: BackfillView, e: Event) -> (BackfillView, NextView) {
    match e {
        Event::Started { marked } => if marked {
            (s, NextView::Finished(None))
        } else if s.local.dom().is_empty() {
            (s, go_on(s))
        } else {
            (s, NextView::FetchDates { set: "1:*"@, items: "(UID INTERNALDATE)"@ })
        },
        Event::Dates(replies) => {
            let after = BackfillView { todo: targets(s.local, replies@), fixed: 0, ..s };
            (after, go_on(after))
        },
        Event::Mtime(mtime) => if s.todo.len() == 0 {
            (s, go_on(s))
        } else if mtime == Some(s.todo[0].secs) {
            let after = BackfillView { todo: s.todo.skip(1), ..s };
            (after, go_on(after))
        } else {
            (s, NextView::Fix { path: s.todo[0].path, secs: s.todo[0].secs })
        },
        Event::Fixed => if s.todo.len() == 0 {
            (s, go_on(s))
        } else {
            let after = BackfillView { todo: s.todo.skip(1), fixed: s.fixed + 1, ..s };
            (after, go_on(after))
        },
        Event::Marked => (s, NextView::Finished(words(s.label, s.fixed))),
    }
}

impl Backfill {
    /// What every state of a repair keeps.
    pub closed spec fn inv(&self) -> bool {
        &&& self.paths@.len() == self.dates@.len()
        &&& self.fixed <= self.at <= self.paths@.len()
    }

    /// A repair of the folder at `dir`, given the file names in `cur` and in `new`. The folder
    /// must already be selected.
    pub fn new(acc: &str, name: &str, dir: &str, cur: &Vec<String>, new: &Vec<String>) -> (r:
        Backfill)
        ensures
            r.inv(),
            r@ == (BackfillView {
                label: acc@ + "/"@ + name@,
                dir: dir@,
                local: maildir::stored(dir@, text::views(cur@), text::views(new@)),
                todo: Seq::empty(),
                fixed: 0,
            }),
    {
        let r = Backfill {
            label: acc.to_owned().concat("/").concat(name),
            dir: dir.to_owned(),
            local: maildir::scan(dir, cur, new),
            paths: Vec::new(),
            dates: Vec::new(),
            at: 0,
            fixed: 0,
        };
        assert(r@.todo =~= Seq::empty());
        r
    }

    /// The next message, or the marker once there is none left.
    fn proceed(&self) -> (r: Next)
        requires
            self.inv(),
        ensures
            r@ == go_on(self@),
    {
        if self.at < self.paths.len() {
            assert(self@.todo[0] == zipped(self.paths@, self.dates@)[self.at as int]);
            Next::Check { path: self.paths[self.at].clone() }
        } else {
            Next::Mark {
                tmp: path::join(
                    path::join(self.dir.as_str(), "tmp").as_str(),
                    ".dates_backfilled",
                ),
                marker: marker(self.dir.as_str()),
            }
        }
    }

    /// Takes in the dates that the server reports.
    fn take_dates(&mut self, replies: &Vec<DateReply>)
        ensures
            final(self).inv(),
            final(self)@ == (BackfillView {
                todo: targets(old(self)@.local, replies@),
                fixed: 0,
                ..old(self)@
            }),
    {
        let ghost v = self@;
        let ghost f = |r: DateReply| target_of(v.local, r);
        let mut paths: Vec<String> = Vec::new();
        let mut dates: Vec<i64> = Vec::new();
        let mut i: usize = 0;
        proof {
            assert(replies@.take(0) =~= Seq::empty());
            assert(zipped(paths@, dates@) =~= replies@.take(0).filter_map(f));
        }
        while i < replies.len()
            invariant
                i <= replies@.len(),
                *self == *old(self),
                v == self@,
                f == (|r: DateReply| target_of(v.local, r)),
                paths@.len() == dates@.len(),
                zipped(paths@, dates@) == replies@.take(i as int).filter_map(f),
            decreases replies@.len() - i,
        {
            let ghost done = zipped(paths@, dates@);
            proof {
                replies@.lemma_filter_map_take_succ(f, i as int);
            }
            if let (Some(uid), Some(secs)) = (replies[i].uid, replies[i].date) {
                if let Some(file) = self.local.get(&uid) {
                    assert(v.local[uid] == file@);
                    paths.push(file.clone());
                    dates.push(secs);
                    assert(zipped(paths@, dates@) =~= done.push(Target { path: file@, secs }));
                }
            }
            i = i + 1;
            assert(zipped(paths@, dates@) =~= replies@.take(i as int).filter_map(f));
        }
        self.paths = paths;
        self.dates = dates;
        self.at = 0;
        self.fixed = 0;
        proof {
            assert(replies@.take(i as int) =~= replies@);
            assert(zipped(self.paths@, self.dates@).skip(0) =~= zipped(self.paths@, self.dates@));
        }
    }

    /// Goes on behind the current message.
    fn pass(&mut self)
        requires
            old(self).inv(),
            old(self)@.todo.len() > 0,
        ensures
            final(self).inv(),
            final(self)@ == (BackfillView { todo: old(self)@.todo.skip(1), ..old(self)@ }),
            final(self).fixed < final(self).at,
    {
        let ghost v = self@;
        let n: usize = self.paths.len();
        self.at = self.at + 1;
        assert(self@.todo =~= v.todo.skip(1));
    }

    /// Takes in what has happened and says what comes next: every local message's mtime is set
    /// to the INTERNALDATE the server reports for its UID. Messages that are only here (gone
    /// upstream) keep the mtime they have - the server has no date for them any more.
    pub fn next(&mut self, event: Event) -> (r: Next)
        requires
            old(self).inv(),
        ensures
            final(self).inv(),
            (final(self)@, r@) == step(old(self)@, event),
    {
        assert(self@.local.dom() =~= self.local@.dom());
        match event {
            Event::Started { marked } => {
                if marked {
                    Next::Finished(None)
                } else if self.local.is_empty() {
                    self.proceed()
                } else {
                    Next::FetchDates { set: job::all_messages(), items: date_items() }
                }
            },
            Event::Dates(replies) => {
                self.take_dates(&replies);
                self.proceed()
            },
            Event::Mtime(mtime) => {
                if self.at == self.paths.len() {
                    return self.proceed();
                }
                let secs: i64 = self.dates[self.at];
                assert(self@.todo[0] == zipped(self.paths@, self.dates@)[self.at as int]);
                let same = match mtime {
                    Some(m) => m == secs,
                    None => false,
                };
                if same {
                    self.pass();
                    self.proceed()
                } else {
                    Next::Fix { path: self.paths[self.at].clone(), secs }
                }
            },
            Event::Fixed => {
                if self.at == self.paths.len() {
                    return self.proceed();
                }
                self.pass();
                self.fixed = self.fixed + 1;
                self.proceed()
            },
            Event::Marked => {
                if self.fixed > 0 {
                    Next::Finished(
                        Some(
                            self.label.clone().concat(": ").concat(
                                text::to_decimal(self.fixed as u128).as_str(),
                            ).concat(" message date(s) restored from the server"),
                        ),
                    )
                } else {
                    Next::Finished(None)
                }
            },
        }
    }
}

// ---------------------------------------------------------------------------
// Laws
// ---------------------------------------------------------------------------

/// The marker is written only when no message is left to compare: an interrupted pass must run
/// again rather than leave half the folder wrong. And a folder with a marker costs nothing.
pub proof fn law_marker_comes_last(s: BackfillView, e: Event)
    ensures
        step(s, e).1 is Mark ==> step(s, e).0.todo.len() == 0,
        e == (Event::Started { marked: true }) ==> step(s, e) == (s, NextView::Finished(None)),
{
}

/// The marker is written under a name of its own before it gets its final one.
pub proof fn law_marker_is_written_apart(s: BackfillView)
    ensures
        match go_on(s) {
            NextView::Mark { tmp, marker } => tmp != marker,
            _ => true,
        },
{
    reveal_strlit("tmp");
    reveal_strlit(".dates_backfilled");
    let name = ".dates_backfilled"@;
    let sub = path::joined(s.dir, "tmp"@);
    assert(sub.len() >= s.dir.len() + 3);
    assert(sub.last() == 'p');
    assert(path::joined(sub, name).len() > path::joined(s.dir, name).len());
}

/// Only messages that the server reports a date for are compared; what is only here keeps the
/// date it has.
pub proof fn law_only_reported_messages_change(
    local: Map<u32, Seq<char>>,
    replies: Seq<DateReply>,
    t: Target,
)
    requires
        targets(local, replies).contains(t),
    ensures
        exists|i: int|
            0 <= i < replies.len() && (#[trigger] replies[i]).uid is Some && local.contains_key(
                replies[i].uid->0,
            ) && t.path == local[replies[i].uid->0] && replies[i].date == Some(t.secs),
{
    let f = |r: DateReply| target_of(local, r);
    replies.lemma_filter_map_contains(f, t);
    let r = choose|r: DateReply| #[trigger] replies.contains(r) && f(r) == Some(t);
    let i = choose|i: int| 0 <= i < replies.len() && replies[i] == r;
    assert(replies[i].uid is Some);
}

/// A message is set to the server's date exactly where it has another one, and either way the
/// pass goes on behind it.
pub proof fn law_each_message_gets_its_date(s: BackfillView, mtime: Option<i64>)
    requires
        s.todo.len() > 0,
    ensures
        ({
            let t = s.todo[0];
            let (after, next) = step(s, Event::Mtime(mtime));
            if mtime == Some(t.secs) {
                after.todo == s.todo.skip(1) && after.fixed == s.fixed
            } else {
                &&& next == NextView::Fix { path: t.path, secs: t.secs }
                &&& step(after, Event::Fixed).0.todo == s.todo.skip(1)
                &&& step(after, Event::Fixed).0.fixed == s.fixed + 1
            }
        }),
{
}

/// A repair after the next messages were found with these dates, and set where that was asked
/// for.
pub open spec fn after_pass(s: BackfillView, mtimes: Seq<Option<i64>>) -> BackfillView
    decreases mtimes.len(),
{
    if mtimes.len() == 0 {
        s
    } else {
        let (seen, next) = step(s, Event::Mtime(mtimes[0]));
        let after = if next is Fix {
            step(seen, Event::Fixed).0
        } else {
            seen
        };
        after_pass(after, mtimes.skip(1))
    }
}

/// How many messages have another date than they are to have.
pub open spec fn off(todo: Seq<Target>, mtimes: Seq<Option<i64>>) -> nat
    decreases mtimes.len(),
{
    if mtimes.len() == 0 {
        0
    } else {
        off(todo.skip(1), mtimes.skip(1)) + if mtimes[0] == Some(todo[0].secs) {
            0nat
        } else {
            1
        }
    }
}

/// A whole pass leaves no message out: after it none is left to compare, the number of dates
/// that were set is that of the messages which had another one, and what comes next is the
/// marker.
pub proof fn law_pass_covers_every_message(s: BackfillView, mtimes: Seq<Option<i64>>)
    requires
        mtimes.len() == s.todo.len(),
    ensures
        after_pass(s, mtimes).todo.len() == 0,
        after_pass(s, mtimes).fixed == s.fixed + off(s.todo, mtimes),
        go_on(after_pass(s, mtimes)) is Mark,
    decreases mtimes.len(),
{
    if mtimes.len() > 0 {
        let (seen, next) = step(s, Event::Mtime(mtimes[0]));
        let after = if next is Fix {
            step(seen, Event::Fixed).0
        } else {
            seen
        };
        law_each_message_gets_its_date(s, mtimes[0]);
        assert(after.todo == s.todo.skip(1)) by {
            if mtimes[0] == Some(s.todo[0].secs) {
                assert(next == go_on(seen));
            }
        }
        law_pass_covers_every_message(after, mtimes.skip(1));
    }
}

// ---------------------------------------------------------------------------
// What these functions mean
// ---------------------------------------------------------------------------

/// The models of steps show everything in them.
pub proof fn law_models_show_every_step(
    a: String,
    b: String,
    secs: i64,
    s: &'static str,
    t: &'static str,
)
    ensures
        Next::Finished(None)@ == NextView::Finished(None),
        Next::Finished(Some(a))@ == NextView::Finished(Some(a@)),
        (Next::FetchDates { set: s, items: t })@ == (NextView::FetchDates {
            set: s@,
            items: t@,
        }),
        (Next::Check { path: a })@ == (NextView::Check { path: a@ }),
        (Next::Fix { path: a, secs })@ == (NextView::Fix { path: a@, secs }),
        (Next::Mark { tmp: a, marker: b })@ == (NextView::Mark { tmp: a@, marker: b@ }),
{
}

/// No reported message is left out: each answer with a UID and a date, for a message that is
/// stored, brings that message with that date up for comparison.
pub proof fn law_no_reported_message_is_left_out(
    local: Map<u32, Seq<char>>,
    replies: Seq<DateReply>,
    i: int,
)
    requires
        0 <= i < replies.len(),
        replies[i].uid is Some,
        replies[i].date is Some,
        local.contains_key(replies[i].uid->0),
    ensures
        targets(local, replies).contains(
            (Target { path: local[replies[i].uid->0], secs: replies[i].date->0 }),
        ),
{
    let r = replies[i];
    let t = Target { path: local[r.uid->0], secs: r.date->0 };
    law_answers_come_up_in_order(local, replies.take(i), seq![r] + replies.skip(i + 1), r);
    law_answers_come_up_in_order(local, seq![r], replies.skip(i + 1), r);
    assert(replies.take(i) + (seq![r] + replies.skip(i + 1)) =~= replies);
    let j = targets(local, replies.take(i)).len() as int;
    assert(targets(local, replies)[j] == t);
}

/// The answers come up in their order, each once: what two lists of answers bring up is what the
/// first does and then what the second does, and one answer brings up its message, or nothing
/// where UID or date is absent or the message is not stored.
pub proof fn law_answers_come_up_in_order(
    local: Map<u32, Seq<char>>,
    a: Seq<DateReply>,
    b: Seq<DateReply>,
    r: DateReply,
)
    ensures
        targets(local, a + b) == targets(local, a) + targets(local, b),
        targets(local, Seq::empty()) == Seq::<Target>::empty(),
        ({
            let known = r.uid is Some && r.date is Some && local.contains_key(r.uid->0);
            &&& known ==> targets(local, seq![r]) == seq![
                Target { path: local[r.uid->0], secs: r.date->0 },
            ]
            &&& !known ==> targets(local, seq![r]) == Seq::<Target>::empty()
        }),
{
    let f = |x: DateReply| target_of(local, x);
    folder::lemma_filter_map_concat(a, b, f);
    assert(Seq::<DateReply>::empty().filter_map(f) =~= Seq::empty());
    seq![r].lemma_filter_map_take_succ(f, 0);
    assert(seq![r].take(1) =~= seq![r]);
    assert(seq![r].take(0) =~= Seq::empty());
    match target_of(local, r) {
        Some(t) => {
            assert(targets(local, seq![r]) =~= seq![t]);
        },
        None => {
            assert(targets(local, seq![r]) =~= Seq::empty());
        },
    }
}

/// How a repair goes on: a marked folder is left alone; of any other the dates of all messages
/// are asked for, unless it holds none; every message that comes up is checked in turn, and
/// after the last one the marker is written. Then what was done is said, if anything was.
pub proof fn law_repair_step_by_step(s: BackfillView, replies: Vec<DateReply>)
    ensures
        step(s, Event::Started { marked: true }) == (s, NextView::Finished(None)),
        !s.local.dom().is_empty() ==> step(s, Event::Started { marked: false }) == (
            s,
            NextView::FetchDates { set: "1:*"@, items: "(UID INTERNALDATE)"@ },
        ),
        s.local.dom().is_empty() && s.todo.len() == 0 ==> step(
            s,
            Event::Started { marked: false },
        ) == (
            s,
            NextView::Mark {
                tmp: path::joined(path::joined(s.dir, "tmp"@), ".dates_backfilled"@),
                marker: path::joined(s.dir, ".dates_backfilled"@),
            },
        ),
        step(s, Event::Dates(replies)).0 == (BackfillView {
            todo: targets(s.local, replies@),
            fixed: 0,
            ..s
        }),
        forall|e: Event|
            e is Dates || e is Fixed || (e is Mtime && s.todo.len() > 0 && e->Mtime_0 == Some(
                s.todo[0].secs,
            )) ==> {
                let (after, next) = #[trigger] step(s, e);
                &&& after.todo.len() > 0 ==> next == (NextView::Check { path: after.todo[0].path })
                &&& after.todo.len() == 0 ==> next == (NextView::Mark {
                    tmp: path::joined(path::joined(s.dir, "tmp"@), ".dates_backfilled"@),
                    marker: path::joined(s.dir, ".dates_backfilled"@),
                })
                &&& after.label == s.label && after.dir == s.dir && after.local == s.local
            },
        s.todo.len() > 0 ==> step(s, Event::Fixed).0 == (BackfillView {
            todo: s.todo.skip(1),
            fixed: s.fixed + 1,
            ..s
        }),
        s.todo.len() == 0 ==> step(s, Event::Fixed).0 == s && forall|m: Option<i64>|
            (#[trigger] step(s, Event::Mtime(m))).0 == s,
        s.fixed == 0 ==> step(s, Event::Marked) == (s, NextView::Finished(None)),
        s.fixed > 0 ==> step(s, Event::Marked) == (
            s,
            NextView::Finished(
                Some(
                    s.label + ": "@ + text::decimal(s.fixed)
                        + " message date(s) restored from the server"@,
                ),
            ),
        ),
        forall|dir: Seq<char>| #[trigger]
            marker_of(dir) == path::joined(dir, ".dates_backfilled"@),
{
}

} // verus!

//! The sync of one folder from beginning to end: after each thing that has happened, what is to
//! be done next.

use crate::archive;
use crate::config::{Account, Hooks};
use crate::folder;
use crate::folder::{
    BodyReply, Delivery, DeliveryView, FileOp, FileOpView, FlagsReply, FolderSync, Opened, Opening,
    SyncView,
};
use crate::hook;
use crate::maildir;
use crate::path;
use crate::text;
use vstd::prelude::*;

verus! {

/// What has happened while a folder is synced.
#[derive(Debug)]
pub enum Event<'b> {
    /// The sync begins.
    Started,
    /// The directories are there.
    Created,
    /// The server opened the folder.
    Examined { uid_validity: Option<u32>, exists: u32 },
    /// The state file was read, if it can be, and the file names in `cur` and `new`; so many
    /// more files are there, whose names are no text.
    Found { state: Option<String>, cur: Vec<String>, new: Vec<String>, unreadable: usize },
    /// The state file was written.
    Recorded,
    /// The server reported its messages.
    Flags(Vec<FlagsReply>),
    /// The stored messages were changed.
    Changed,
    /// The server sent a batch of messages.
    Bodies(Vec<BodyReply<'b>>),
    /// The messages were stored.
    Stored,
}

/// What is to be done next for a folder.
#[derive(Debug)]
pub enum Action<'b> {
    /// Create these directories, with those above them.
    Create(Vec<String>),
    /// Open the folder on the server, read-only.
    Examine,
    /// Read the state file, and list these two directories.
    Look { state: String, cur: String, new: String },
    /// Write the state file, durably.
    Record { tmp: String, dst: String, text: String },
    /// Fetch these items of these messages: the UIDs and flags of all.
    FetchFlags { set: &'static str, items: &'static str },
    /// Make these changes in order; a rename is durable.
    Change(Vec<FileOp>),
    /// Fetch these items of these messages: flags, date and content, which leaves them unread.
    FetchBodies { set: String, items: &'static str },
    /// Store these messages in order, durably, and run the hook of each.
    Store(Vec<Delivery<'b>>),
    /// Nothing: it is over. There is this to be said, and the dates are to be repaired or not.
    Done { says: Vec<String>, backfill: bool },
    /// Nothing: it has failed.
    Fail(String),
}

/// An [`Action`] over models.
pub enum ActionView {
    Create(Seq<Seq<char>>),
    Examine,
    Look { state: Seq<char>, cur: Seq<char>, new: Seq<char> },
    Record { tmp: Seq<char>, dst: Seq<char>, text: Seq<char> },
    FetchFlags { set: Seq<char>, items: Seq<char> },
    Change(Seq<FileOpView>),
    FetchBodies { set: Seq<char>, items: Seq<char> },
    Store(Seq<DeliveryView>),
    Done { says: Seq<Seq<char>>, backfill: bool },
    Fail(Seq<char>),
}

impl<'b> View for Action<'b> {
    type V = ActionView;

    open spec fn view(&self) -> ActionView {
        match *self {
            Action::Create(dirs) => ActionView::Create(text::views(dirs@)),
            Action::Examine => ActionView::Examine,
            Action::Look { state, cur, new } => ActionView::Look {
                state: state@,
                cur: cur@,
                new: new@,
            },
            Action::Record { tmp, dst, text } => ActionView::Record {
                tmp: tmp@,
                dst: dst@,
                text: text@,
            },
            Action::FetchFlags { set, items } => ActionView::FetchFlags {
                set: set@,
                items: items@,
            },
            Action::Change(ops) => ActionView::Change(folder::op_views(ops@)),
            Action::FetchBodies { set, items } => ActionView::FetchBodies {
                set: set@,
                items: items@,
            },
            Action::Store(v) => ActionView::Store(folder::delivery_views(v@)),
            Action::Done { says, backfill } => ActionView::Done {
                says: text::views(says@),
                backfill,
            },
            Action::Fail(why) => ActionView::Fail(why@),
        }
    }
}

// ---------------------------------------------------------------------------
// The state of a job
// ---------------------------------------------------------------------------

/// How far a job is: what it waits for.
#[derive(Debug)]
enum Stage {
    Begun,
    Creating,
    Examining,
    Looking { uid_validity: u32, exists: u32 },
    Recording(FolderSync),
    Listing(FolderSync),
    Changing(FolderSync),
    Fetching(FolderSync),
    Storing(FolderSync),
    Over,
}

/// How far a job is: what it waits for.
pub enum StageView {
    /// The beginning.
    Begun,
    /// The directories.
    Creating,
    /// The server's view of the folder.
    Examining,
    /// The state file and the stored messages.
    Looking { uid_validity: u32, exists: u32 },
    /// The state file being written.
    Recording(SyncView),
    /// The UIDs and flags of the server's messages.
    Listing(SyncView),
    /// The stored messages being changed.
    Changing(SyncView),
    /// A batch of messages.
    Fetching(SyncView),
    /// A batch of messages being stored.
    Storing(SyncView),
    /// Nothing any more.
    Over,
}

impl View for Stage {
    type V = StageView;

    closed spec fn view(&self) -> StageView {
        match *self {
            Stage::Begun => StageView::Begun,
            Stage::Creating => StageView::Creating,
            Stage::Examining => StageView::Examining,
            Stage::Looking { uid_validity, exists } => StageView::Looking { uid_validity, exists },
            Stage::Recording(s) => StageView::Recording(s@),
            Stage::Listing(s) => StageView::Listing(s@),
            Stage::Changing(s) => StageView::Changing(s@),
            Stage::Fetching(s) => StageView::Fetching(s@),
            Stage::Storing(s) => StageView::Storing(s@),
            Stage::Over => StageView::Over,
        }
    }
}

impl Stage {
    spec fn inv(&self) -> bool {
        match *self {
            Stage::Recording(s) => s.inv(),
            Stage::Listing(s) => s.inv(),
            Stage::Changing(s) => s.inv(),
            Stage::Fetching(s) => s.inv(),
            Stage::Storing(s) => s.inv(),
            _ => true,
        }
    }
}

/// The sync of one folder.
#[derive(Debug)]
pub struct Job<'a> {
    acc: &'a Account,
    hooks: &'a Hooks,
    name: &'a str,
    dir: &'a str,
    backfill: bool,
    stage: Stage,
}

/// A [`Job`] over models.
pub struct JobView {
    pub acc: Account,
    pub hooks: Hooks,
    pub name: Seq<char>,
    pub dir: Seq<char>,
    /// Whether the dates of the stored messages are to be repaired.
    pub backfill: bool,
    pub stage: StageView,
}

impl<'a> View for Job<'a> {
    type V = JobView;

    closed spec fn view(&self) -> JobView {
        JobView {
            acc: *self.acc,
            hooks: *self.hooks,
            name: self.name@,
            dir: self.dir@,
            backfill: self.backfill,
            stage: self.stage@,
        }
    }
}

// ---------------------------------------------------------------------------
// How a job goes on
// ---------------------------------------------------------------------------

/// The directories of a folder.
pub open spec fn create_action(dir: Seq<char>) -> ActionView {
    ActionView::Create(
        seq![
            path::joined(dir, "cur"@),
            path::joined(dir, "new"@),
            path::joined(dir, "tmp"@),
        ],
    )
}

/// Looking up what is stored in a folder.
pub open spec fn look_action(dir: Seq<char>) -> ActionView {
    ActionView::Look {
        state: path::joined(dir, ".uidvalidity"@),
        cur: path::joined(dir, "cur"@),
        new: path::joined(dir, "new"@),
    }
}

/// Recording the epoch of a folder.
pub open spec fn record_action(dir: Seq<char>, uv: u32) -> ActionView {
    ActionView::Record {
        tmp: path::joined(dir, ".uidvalidity.tmp"@),
        dst: path::joined(dir, ".uidvalidity"@),
        text: folder::state_of(uv),
    }
}

/// Every message of a folder, as a fetch command names it.
pub fn all_messages() -> (r: &'static str)
    ensures
        r@ == "1:*"@,
{
    "1:*"
}

/// The items of a fetch of UIDs and flags.
pub fn flag_items() -> (r: &'static str)
    ensures
        r@ == "(UID FLAGS)"@,
{
    "(UID FLAGS)"
}

/// The items of a fetch of messages. The content is only peeked at: a plain fetch would mark
/// the message as read.
pub fn body_items() -> (r: &'static str)
    ensures
        r@ == "(UID FLAGS INTERNALDATE BODY.PEEK[])"@,
{
    "(UID FLAGS INTERNALDATE BODY.PEEK[])"
}

/// Fetching the UIDs and flags of all messages.
pub open spec fn flags_action() -> ActionView {
    ActionView::FetchFlags { set: "1:*"@, items: "(UID FLAGS)"@ }
}

/// Fetching the messages of a set.
pub open spec fn bodies_action(set: Seq<char>) -> ActionView {
    ActionView::FetchBodies { set, items: "(UID FLAGS INTERNALDATE BODY.PEEK[])"@ }
}

/// Being over without a word.
pub open spec fn silent_end() -> ActionView {
    ActionView::Done { says: Seq::empty(), backfill: false }
}

/// The server's answers are compared with the stored messages.
pub open spec fn compares(
    s: SyncView,
    replies: Seq<FlagsReply>,
    stage: StageView,
    a: ActionView,
) -> bool {
    match (stage, a) {
        (StageView::Changing(after), ActionView::Change(ops)) => folder::is_comparison(
            s,
            replies,
            after,
            ops,
        ),
        _ => false,
    }
}

/// The server's messages are asked for, unless the folder claims to be empty: then there is
/// nothing to ask.
pub open spec fn lists(s: SyncView, stage: StageView, a: ActionView) -> bool {
    if s.exists > 0 {
        stage == StageView::Listing(s) && a == flags_action()
    } else {
        compares(s, Seq::empty(), stage, a)
    }
}

/// The next batch is fetched, or the sync is over.
pub open spec fn fetches(v: JobView, s: SyncView) -> (StageView, ActionView) {
    match folder::batch_of(s) {
        Some(set) => (StageView::Fetching(folder::batched(s)), bodies_action(set)),
        None => (
            StageView::Over,
            ActionView::Done { says: folder::report_of(s), backfill: v.backfill },
        ),
    }
}

/// How a job goes on after an event: directories first, then the server's view of the folder,
/// then what is stored; a folder of another epoch is left untouched; a new epoch is recorded
/// before anything else; then flags and vanished messages, then the missing messages in
/// batches. An event that the job does not wait for ends it.
pub open spec fn goes_on<'b>(v: JobView, e: Event<'b>, w: JobView, a: ActionView) -> bool {
    &&& w == (JobView { stage: w.stage, ..v })
    &&& match (v.stage, e) {
        (StageView::Begun, Event::Started) => {
            w.stage is Creating && a == create_action(v.dir)
        },
        (StageView::Creating, Event::Created) => w.stage is Examining && a is Examine,
        (StageView::Examining, Event::Examined { uid_validity, exists }) => {
            match uid_validity {
                Some(uv) => {
                    &&& w.stage == (StageView::Looking { uid_validity: uv, exists })
                    &&& a == look_action(v.dir)
                },
                None => {
                    &&& w.stage is Over
                    &&& a == ActionView::Fail("server reported no UIDVALIDITY"@)
                },
            }
        },
        (
            StageView::Looking { uid_validity, exists },
            Event::Found { state, cur, new, unreadable },
        ) => {
            let found = Opened { uid_validity, exists, state, cur, new, unreadable };
            let s = folder::opened(v.acc, v.hooks, v.name, v.dir, found);
            if !found.accepted() {
                &&& w.stage is Over
                &&& a == (ActionView::Done {
                    says: seq![folder::untouched_words(v.acc, v.name, v.dir, found)],
                    backfill: false,
                })
            } else if s.fresh {
                w.stage == StageView::Recording(s) && a == record_action(v.dir, s.uv)
            } else {
                lists(s, w.stage, a)
            }
        },
        (StageView::Recording(s), Event::Recorded) => lists(s, w.stage, a),
        (StageView::Listing(s), Event::Flags(replies)) => compares(s, replies@, w.stage, a),
        (StageView::Changing(s), Event::Changed) => (w.stage, a) == fetches(v, s),
        (StageView::Fetching(s), Event::Bodies(replies)) => {
            &&& w.stage == StageView::Storing(folder::delivered(s, replies@))
            &&& a == ActionView::Store(folder::deliveries(s, replies@))
        },
        (StageView::Storing(s), Event::Stored) => (w.stage, a) == fetches(v, s),
        _ => w.stage is Over && a == silent_end(),
    }
}

impl JobView {
    /// How many messages have been stored.
    pub open spec fn added(self) -> nat {
        match self.stage {
            StageView::Fetching(s) => s.added,
            _ => 0,
        }
    }
}

impl<'b> Event<'b> {
    /// How many messages came.
    pub open spec fn sent(self) -> nat {
        match self {
            Event::Bodies(replies) => replies@.len(),
            _ => 0,
        }
    }
}

impl<'a> Job<'a> {
    /// What every state of a job keeps.
    pub closed spec fn inv(&self) -> bool {
        self.stage.inv()
    }

    /// The sync of the folder `name` at `dir`, which has not begun yet; `backfill` says whether
    /// the dates of the stored messages are to be repaired.
    pub fn new(
        acc: &'a Account,
        hooks: &'a Hooks,
        name: &'a str,
        dir: &'a str,
        backfill: bool,
    ) -> (r: Job<'a>)
        ensures
            r.inv(),
            r@ == (JobView {
                acc: *acc,
                hooks: *hooks,
                name: name@,
                dir: dir@,
                backfill,
                stage: StageView::Begun,
            }),
    {
        Job { acc, hooks, name, dir, backfill, stage: Stage::Begun }
    }

    /// How many messages have been stored, while a batch is awaited.
    pub fn added(&self) -> (r: usize)
        ensures
            r == self@.added(),
    {
        match &self.stage {
            Stage::Fetching(s) => s.added(),
            _ => 0,
        }
    }

    /// Compares the answers with the stored messages.
    fn compare<'b>(s: FolderSync, replies: &Vec<FlagsReply>) -> (r: (Stage, Action<'b>))
        ensures
            r.0.inv(),
            compares(s@, replies@, r.0@, r.1@),
    {
        let mut s = s;
        let ops = s.compare(replies);
        (Stage::Changing(s), Action::Change(ops))
    }

    /// Asks for the server's messages, unless there is nothing to ask.
    fn list<'b>(s: FolderSync) -> (r: (Stage, Action<'b>))
        requires
            s.inv(),
        ensures
            r.0.inv(),
            lists(s@, r.0@, r.1@),
    {
        if s.wants_flags() {
            (Stage::Listing(s), Action::FetchFlags { set: all_messages(), items: flag_items() })
        } else {
            Self::compare(s, &Vec::new())
        }
    }

    /// Fetches the next batch, or is done.
    fn fetch<'b>(&self, s: FolderSync) -> (r: (Stage, Action<'b>))
        requires
            s.inv(),
        ensures
            r.0.inv(),
            (r.0@, r.1@) == fetches(self@, s@),
    {
        let mut s = s;
        match s.next_batch() {
            Some(set) => (Stage::Fetching(s), Action::FetchBodies { set, items: body_items() }),
            None => (Stage::Over, Action::Done { says: s.report(), backfill: self.backfill }),
        }
    }

    /// Opens the folder with what was found.
    fn open<'b>(&self, found: &Opened) -> (r: (Stage, Action<'b>))
        ensures
            r.0.inv(),
            ({
                let v = self@;
                let s = folder::opened(v.acc, v.hooks, v.name, v.dir, *found);
                if !found.accepted() {
                    &&& r.0@ is Over
                    &&& r.1@ == (ActionView::Done {
                        says: seq![folder::untouched_words(v.acc, v.name, v.dir, *found)],
                        backfill: false,
                    })
                } else if s.fresh {
                    r.0@ == StageView::Recording(s) && r.1@ == record_action(v.dir, s.uv)
                } else {
                    lists(s, r.0@, r.1@)
                }
            }),
    {
        match FolderSync::open(self.acc, self.hooks, self.name, self.dir, found) {
            Opening::Untouched(why) => {
                let ghost words = why@;
                let mut says: Vec<String> = Vec::new();
                says.push(why);
                assert(text::views(says@) =~= seq![words]);
                (Stage::Over, Action::Done { says, backfill: false })
            },
            Opening::Start(s) => match s.state_to_write() {
                Some(text) => (
                    Stage::Recording(s),
                    Action::Record {
                        tmp: path::join(self.dir, ".uidvalidity.tmp"),
                        dst: path::join(self.dir, ".uidvalidity"),
                        text,
                    },
                ),
                None => Self::list(s),
            },
        }
    }

    /// Takes in what has happened and says what is to be done next.
    pub fn next<'b>(&mut self, event: Event<'b>) -> (r: Action<'b>)
        requires
            old(self).inv(),
            old(self)@.added() + event.sent() <= usize::MAX,
        ensures
            final(self).inv(),
            goes_on(old(self)@, event, final(self)@, r@),
    {
        let mut stage = Stage::Over;
        std::mem::swap(&mut stage, &mut self.stage);
        let (after, action) = match (stage, event) {
            (Stage::Begun, Event::Started) => {
                (Stage::Creating, Action::Create(maildir::create(self.dir)))
            },
            (Stage::Creating, Event::Created) => (Stage::Examining, Action::Examine),
            (Stage::Examining, Event::Examined { uid_validity, exists }) => match uid_validity {
                Some(uv) => (
                    Stage::Looking { uid_validity: uv, exists },
                    Action::Look {
                        state: path::join(self.dir, ".uidvalidity"),
                        cur: path::join(self.dir, "cur"),
                        new: path::join(self.dir, "new"),
                    },
                ),
                None => (Stage::Over, Action::Fail("server reported no UIDVALIDITY".to_owned())),
            },
            (
                Stage::Looking { uid_validity, exists },
                Event::Found { state, cur, new, unreadable },
            ) => {
                self.open(&Opened { uid_validity, exists, state, cur, new, unreadable })
            },
            (Stage::Recording(s), Event::Recorded) => Self::list(s),
            (Stage::Listing(s), Event::Flags(replies)) => Self::compare(s, &replies),
            (Stage::Changing(s), Event::Changed) => self.fetch(s),
            (Stage::Fetching(s), Event::Bodies(replies)) => {
                let mut s = s;
                let mail = s.deliver(&replies);
                (Stage::Storing(s), Action::Store(mail))
            },
            (Stage::Storing(s), Event::Stored) => self.fetch(s),
            _ => {
                let says: Vec<String> = Vec::new();
                assert(text::views(says@) =~= Seq::empty());
                (Stage::Over, Action::Done { says, backfill: false })
            },
        };
        self.stage = after;
        action
    }
}

// ---------------------------------------------------------------------------
// Laws
// ---------------------------------------------------------------------------

/// A job that goes on from event to event: its states, one more than the events, and what was
/// to be done after each event.
pub open spec fn is_run<'b>(
    states: Seq<JobView>,
    events: Seq<Event<'b>>,
    actions: Seq<ActionView>,
) -> bool {
    &&& states.len() == events.len() + 1
    &&& actions.len() == events.len()
    &&& forall|i: int|
        0 <= i < events.len() ==> goes_on(
            states[i],
            events[i],
            states[i + 1],
            #[trigger] actions[i],
        )
}

/// The sync that a job is about, once the epoch has been seen to.
pub open spec fn underway(stage: StageView) -> Option<SyncView> {
    match stage {
        StageView::Listing(s) => Some(s),
        StageView::Changing(s) => Some(s),
        StageView::Fetching(s) => Some(s),
        StageView::Storing(s) => Some(s),
        _ => None,
    }
}

/// At some point before `n` the epoch was to be recorded, and then it was.
pub open spec fn was_recorded<'b>(
    events: Seq<Event<'b>>,
    actions: Seq<ActionView>,
    dir: Seq<char>,
    uv: u32,
    n: int,
) -> bool {
    exists|j: int|
        0 <= j && j + 1 < n && #[trigger] actions[j] == record_action(dir, uv) && events[j + 1]
            is Recorded
}

/// A new epoch is recorded before anything is done about messages: when a message is asked for,
/// changed or stored, the state file tells the epoch already, or it was written before.
pub proof fn law_epoch_is_recorded_first<'b>(
    states: Seq<JobView>,
    events: Seq<Event<'b>>,
    actions: Seq<ActionView>,
    n: int,
)
    requires
        is_run(states, events, actions),
        states[0].stage is Begun,
        0 <= n < states.len(),
    ensures
        states[n].dir == states[0].dir,
        match states[n].stage {
            StageView::Recording(s) => n > 0 && actions[n - 1] == record_action(
                states[0].dir,
                s.uv,
            ),
            _ => true,
        },
        match underway(states[n].stage) {
            Some(s) => s.fresh ==> was_recorded(events, actions, states[0].dir, s.uv, n),
            None => true,
        },
    decreases n,
{
    if n > 0 {
        law_epoch_is_recorded_first(states, events, actions, n - 1);
        let v = states[n - 1];
        assert(goes_on(v, events[n - 1], states[n], actions[n - 1]));
        if let Some(s) = underway(states[n].stage) {
            if s.fresh {
                if let Some(t) = underway(v.stage) {
                    assert(t.fresh && t.uv == s.uv);
                    let j = choose|j: int|
                        0 <= j && j + 1 < n - 1 && #[trigger] actions[j] == record_action(
                            states[0].dir,
                            s.uv,
                        ) && events[j + 1] is Recorded;
                    assert(actions[j] == record_action(states[0].dir, s.uv));
                } else {
                    assert(v.stage is Recording);
                    assert(actions[n - 2] == record_action(states[0].dir, s.uv));
                }
            }
        }
    }
}

/// The state file is written under a name of its own before it gets its final one, so a power
/// cut never leaves half of it there.
pub proof fn law_state_file_is_written_apart(dir: Seq<char>, uv: u32)
    ensures
        match record_action(dir, uv) {
            ActionView::Record { tmp, dst, .. } => tmp != dst,
            _ => false,
        },
{
    reveal_strlit(".uidvalidity");
    reveal_strlit(".uidvalidity.tmp");
    let a = path::joined(dir, ".uidvalidity.tmp"@);
    let b = path::joined(dir, ".uidvalidity"@);
    assert(a.len() == b.len() + 4);
}

/// Whether an action changes anything in a folder that holds mail.
pub open spec fn touches(a: ActionView) -> bool {
    a is Record || a is Change || a is Store
}

/// The stages before anything is known of what is stored.
pub open spec fn early(stage: StageView) -> bool {
    stage is Begun || stage is Creating || stage is Examining || stage is Looking
}

/// What comes before an early stage is early too.
proof fn lemma_early<'b>(
    states: Seq<JobView>,
    events: Seq<Event<'b>>,
    actions: Seq<ActionView>,
    i: int,
    k: int,
)
    requires
        is_run(states, events, actions),
        0 <= i <= k < states.len(),
        early(states[k].stage),
    ensures
        early(states[i].stage),
    decreases k - i,
{
    if i < k {
        assert(goes_on(states[k - 1], events[k - 1], states[k], actions[k - 1]));
        lemma_early(states, events, actions, i, k - 1);
    }
}

/// What is over stays over.
proof fn lemma_over<'b>(
    states: Seq<JobView>,
    events: Seq<Event<'b>>,
    actions: Seq<ActionView>,
    k: int,
    i: int,
)
    requires
        is_run(states, events, actions),
        0 <= k <= i < states.len(),
        states[k].stage is Over,
    ensures
        states[i].stage is Over,
    decreases i - k,
{
    if k < i {
        lemma_over(states, events, actions, k, i - 1);
        assert(goes_on(states[i - 1], events[i - 1], states[i], actions[i - 1]));
    }
}

/// A folder that holds files of another epoch, or of none that is known, is not touched,
/// whatever the files are called: no state file is written, no message is removed, renamed or
/// stored, neither before nor after that has turned out; the operator is told, and no date is
/// repaired.
pub proof fn law_refused_folder_is_not_touched<'b>(
    states: Seq<JobView>,
    events: Seq<Event<'b>>,
    actions: Seq<ActionView>,
    k: int,
    found: Opened,
    i: int,
)
    requires
        is_run(states, events, actions),
        0 <= k < events.len(),
        states[k].stage == (StageView::Looking {
            uid_validity: found.uid_validity,
            exists: found.exists,
        }),
        events[k] == (Event::Found {
            state: found.state,
            cur: found.cur,
            new: found.new,
            unreadable: found.unreadable,
        }),
        !found.accepted(),
        0 <= i < events.len(),
    ensures
        !touches(actions[i]),
        actions[k] == (ActionView::Done {
            says: seq![
                folder::untouched_words(states[k].acc, states[k].name, states[k].dir, found),
            ],
            backfill: false,
        }),
        i > k ==> actions[i] == silent_end(),
{
    assert(goes_on(states[k], events[k], states[k + 1], actions[k]));
    assert(goes_on(states[i], events[i], states[i + 1], actions[i]));
    if i < k {
        lemma_early(states, events, actions, i, k);
        lemma_early(states, events, actions, i + 1, k);
    } else if i > k {
        lemma_over(states, events, actions, k + 1, i);
    }
}

/// A removal is only ever asked for right after the server enumerated messages, by an account
/// that wants it.
pub proof fn law_removals_need_an_enumeration<'b>(
    v: JobView,
    e: Event<'b>,
    w: JobView,
    a: ActionView,
    ops: Seq<FileOpView>,
    i: int,
)
    requires
        goes_on(v, e, w, a),
        a == ActionView::Change(ops),
        0 <= i < ops.len(),
        ops[i] is Remove,
    ensures
        v.stage is Listing,
        v.stage->Listing_0.expunge,
        e is Flags,
        !folder::reported(e->Flags_0@).dom().is_empty(),
        !folder::reported(e->Flags_0@).contains_key(ops[i].uid()),
        v.stage->Listing_0.local.contains_key(ops[i].uid()),
{
    assert(ops.contains(ops[i]));
    assert(w.stage is Changing);
}

/// Syncing leaves unread mail unread: messages are fetched only by peeking at them, and the
/// other fetch asks for UIDs and flags alone.
pub proof fn law_mail_stays_unread<'b>(v: JobView, e: Event<'b>, w: JobView, a: ActionView)
    requires
        goes_on(v, e, w, a),
    ensures
        match a {
            ActionView::FetchBodies { items, .. } => items
                == "(UID FLAGS INTERNALDATE BODY.PEEK[])"@,
            ActionView::FetchFlags { items, .. } => items == "(UID FLAGS)"@,
            _ => true,
        },
{
}

/// From where a batch is due, the events `Bodies` and `Stored` come in turn, once for each batch
/// that the pending messages make.
pub open spec fn batches_answered<'b>(events: Seq<Event<'b>>, p: int, pending: Seq<u32>) -> bool {
    let m = archive::batches(pending).len();
    &&& p + 2 * m < events.len()
    &&& forall|i: int|
        0 <= i < m ==> #[trigger] events[p + 2 * i + 1] is Bodies && events[p + 2 * i + 2]
            is Stored
}

/// The fetches from where a batch is due.
proof fn lemma_batches_asked<'b>(
    states: Seq<JobView>,
    events: Seq<Event<'b>>,
    actions: Seq<ActionView>,
    p: int,
    s: SyncView,
)
    requires
        is_run(states, events, actions),
        0 <= p < events.len(),
        (states[p + 1].stage, actions[p]) == fetches(states[p], s),
        batches_answered(events, p, s.pending),
    ensures
        ({
            let sets = archive::batches(s.pending);
            &&& forall|i: int|
                0 <= i < sets.len() ==> #[trigger] actions[p + 2 * i] == bodies_action(
                    folder::uid_set(sets[i]),
                )
            &&& actions[p + 2 * sets.len()] is Done
        }),
    decreases s.pending.len(),
{
    let sets = archive::batches(s.pending);
    if s.pending.len() > 0 {
        let n = folder::batch_len(s.pending);
        let rest = s.pending.skip(n);
        let more = archive::batches(rest);
        assert(sets == seq![s.pending.take(n)] + more);
        assert(events[p + 2 * 0 + 1] is Bodies);
        assert(goes_on(states[p + 1], events[p + 1], states[p + 2], actions[p + 1]));
        assert(goes_on(states[p + 2], events[p + 2], states[p + 3], actions[p + 2]));
        let after = folder::delivered(folder::batched(s), events[p + 1]->Bodies_0@);
        assert(after.pending == rest);
        assert forall|i: int| 0 <= i < more.len() implies #[trigger] events[(p + 2) + 2 * i + 1]
            is Bodies && events[(p + 2) + 2 * i + 2] is Stored by {
            assert(events[p + 2 * (i + 1) + 1] is Bodies);
        }
        lemma_batches_asked(states, events, actions, p + 2, after);
        assert forall|i: int| 0 <= i < sets.len() implies #[trigger] actions[p + 2 * i]
            == bodies_action(folder::uid_set(sets[i])) by {
            if i > 0 {
                assert(sets[i] == more[i - 1]);
                assert(actions[(p + 2) + 2 * (i - 1)] == bodies_action(
                    folder::uid_set(more[i - 1]),
                ));
            }
        }
    }
}

/// Every message that the server has and the disk has not is asked for: once the stored
/// messages have been changed, the pending ones are fetched batch after batch, and only after
/// the last batch the sync is over.
pub proof fn law_every_missing_message_is_asked_for<'b>(
    states: Seq<JobView>,
    events: Seq<Event<'b>>,
    actions: Seq<ActionView>,
    s: SyncView,
)
    requires
        is_run(states, events, actions),
        states[0].stage == StageView::Changing(s),
        events.len() > 0,
        events[0] is Changed,
        batches_answered(events, 0, s.pending),
    ensures
        ({
            let sets = archive::batches(s.pending);
            &&& forall|i: int|
                0 <= i < sets.len() ==> #[trigger] actions[2 * i] == bodies_action(
                    folder::uid_set(sets[i]),
                )
            &&& actions[2 * sets.len() as int] is Done
        }),
{
    assert(goes_on(states[0], events[0], states[1], actions[0]));
    lemma_batches_asked(states, events, actions, 0, s);
    let sets = archive::batches(s.pending);
    assert forall|i: int| 0 <= i < sets.len() implies #[trigger] actions[2 * i]
        == bodies_action(folder::uid_set(sets[i])) by {
        assert(actions[0 + 2 * i] == bodies_action(folder::uid_set(sets[i])));
    }
}

// ---------------------------------------------------------------------------
// What a job does, step by step
// ---------------------------------------------------------------------------

/// The models of actions show everything in them.
pub proof fn law_models_show_every_action<'b>(
    texts: Vec<String>,
    ops: Vec<FileOp>,
    mail: Vec<Delivery<'b>>,
    a: String,
    b: String,
    c: String,
    s: &'static str,
    t: &'static str,
    backfill: bool,
)
    ensures
        Action::Create(texts)@ == ActionView::Create(text::views(texts@)),
        Action::Examine@ == ActionView::Examine,
        (Action::Look { state: a, cur: b, new: c })@ == (ActionView::Look {
            state: a@,
            cur: b@,
            new: c@,
        }),
        (Action::Record { tmp: a, dst: b, text: c })@ == (ActionView::Record {
            tmp: a@,
            dst: b@,
            text: c@,
        }),
        (Action::FetchFlags { set: s, items: t })@ == (ActionView::FetchFlags {
            set: s@,
            items: t@,
        }),
        Action::Change(ops)@ == ActionView::Change(folder::op_views(ops@)),
        (Action::FetchBodies { set: a, items: t })@ == (ActionView::FetchBodies {
            set: a@,
            items: t@,
        }),
        Action::Store(mail)@ == ActionView::Store(folder::delivery_views(mail@)),
        (Action::Done { says: texts, backfill })@ == (ActionView::Done {
            says: text::views(texts@),
            backfill,
        }),
        Action::Fail(a)@ == ActionView::Fail(a@),
{
}

/// The first steps of a sync: the three directories, then the folder on the server, then what is
/// stored. A server that tells no epoch ends it.
pub proof fn law_job_begins<'b>(v: JobView, e: Event<'b>, w: JobView, a: ActionView)
    requires
        goes_on(v, e, w, a),
    ensures
        v.stage is Begun && e is Started ==> w.stage is Creating && a == ActionView::Create(
            seq![
                path::joined(v.dir, "cur"@),
                path::joined(v.dir, "new"@),
                path::joined(v.dir, "tmp"@),
            ],
        ),
        v.stage is Creating && e is Created ==> w.stage is Examining && a is Examine,
        v.stage is Examining ==> match e {
            Event::Examined { uid_validity: Some(uv), exists } => {
                &&& w.stage == (StageView::Looking { uid_validity: uv, exists })
                &&& a == (ActionView::Look {
                    state: path::joined(v.dir, ".uidvalidity"@),
                    cur: path::joined(v.dir, "cur"@),
                    new: path::joined(v.dir, "new"@),
                })
            },
            Event::Examined { uid_validity: None, exists } => w.stage is Over && a
                == ActionView::Fail("server reported no UIDVALIDITY"@),
            _ => true,
        },
{
}

/// What follows once it is known what is stored: a new epoch is recorded, and then the server's
/// messages are asked for, all of them, unless the folder claims to be empty.
pub proof fn law_job_looks_at_the_epoch(
    v: JobView,
    found: Opened,
    w: JobView,
    a: ActionView,
)
    requires
        v.stage == (StageView::Looking {
            uid_validity: found.uid_validity,
            exists: found.exists,
        }),
        goes_on(
            v,
            (Event::Found {
                state: found.state,
                cur: found.cur,
                new: found.new,
                unreadable: found.unreadable,
            }),
            w,
            a,
        ),
        found.accepted(),
    ensures
        ({
            let s = folder::opened(v.acc, v.hooks, v.name, v.dir, found);
            if found.epoch() != Some(found.uid_validity) {
                &&& w.stage == StageView::Recording(s)
                &&& a == (ActionView::Record {
                    tmp: path::joined(v.dir, ".uidvalidity.tmp"@),
                    dst: path::joined(v.dir, ".uidvalidity"@),
                    text: text::decimal(found.uid_validity as nat) + seq!['\n'],
                })
            } else if found.exists > 0 {
                &&& w.stage == StageView::Listing(s)
                &&& a == (ActionView::FetchFlags { set: "1:*"@, items: "(UID FLAGS)"@ })
            } else {
                &&& w.stage is Changing
                &&& a == ActionView::Change(Seq::empty())
            }
        }),
{
    if found.epoch() == Some(found.uid_validity) && found.exists == 0 {
        let s = folder::opened(v.acc, v.hooks, v.name, v.dir, found);
        lemma_empty_folder_changes_nothing(s, w.stage, a);
    }
}

/// A folder that claims to be empty brings no change.
proof fn lemma_empty_folder_changes_nothing(s: SyncView, stage: StageView, a: ActionView)
    requires
        s.exists == 0,
        compares(s, Seq::empty(), stage, a),
    ensures
        stage is Changing,
        a == ActionView::Change(Seq::empty()),
        stage->Changing_0.pending.len() == 0,
{
    let ops = a->Change_0;
    let after = stage->Changing_0;
    if ops.len() > 0 {
        assert(ops.contains(ops[0]));
        assert(folder::remote_seen(s, Seq::empty()).dom() =~= Set::empty());
    }
    assert(ops =~= Seq::empty());
    if after.pending.len() > 0 {
        assert(after.pending.contains(after.pending[0]));
    }
}

/// The middle of a sync: after the epoch was recorded the server's messages are asked for, unless
/// the folder claims to be empty; their answers are compared with what is stored.
pub proof fn law_job_compares<'b>(v: JobView, e: Event<'b>, w: JobView, a: ActionView, s: SyncView)
    requires
        goes_on(v, e, w, a),
    ensures
        v.stage == StageView::Recording(s) && e is Recorded && s.exists > 0 ==> {
            &&& w.stage == StageView::Listing(s)
            &&& a == (ActionView::FetchFlags { set: "1:*"@, items: "(UID FLAGS)"@ })
        },
        v.stage == StageView::Recording(s) && e is Recorded && s.exists == 0 ==> {
            &&& w.stage is Changing
            &&& w.stage->Changing_0.pending.len() == 0
            &&& a == ActionView::Change(Seq::empty())
        },
        v.stage == StageView::Listing(s) && e is Flags ==> {
            &&& w.stage is Changing
            &&& a is Change
            &&& folder::is_comparison(s, e->Flags_0@, w.stage->Changing_0, a->Change_0)
        },
{
    if v.stage == StageView::Recording(s) && e is Recorded && s.exists == 0 {
        lemma_empty_folder_changes_nothing(s, w.stage, a);
    }
}

/// The end of a sync: batch after batch of up to 25 missing messages is fetched and stored, and
/// when none is left the sync is over, with its report and the repair of dates if that is
/// configured.
pub proof fn law_job_fetches_batch_after_batch<'b>(
    v: JobView,
    e: Event<'b>,
    w: JobView,
    a: ActionView,
    s: SyncView,
    n: int,
)
    requires
        goes_on(v, e, w, a),
        s.pending.len() >= 25 ==> n == 25,
        s.pending.len() < 25 ==> n == s.pending.len(),
    ensures
        (v.stage == StageView::Changing(s) && e is Changed) || (v.stage == StageView::Storing(s)
            && e is Stored) ==> if s.pending.len() > 0 {
            &&& w.stage == StageView::Fetching(
                SyncView { pending: s.pending.skip(n), asked: n as nat, ..s },
            )
            &&& a == (ActionView::FetchBodies {
                set: folder::uid_set(s.pending.take(n)),
                items: "(UID FLAGS INTERNALDATE BODY.PEEK[])"@,
            })
        } else {
            &&& w.stage is Over
            &&& a == (ActionView::Done { says: folder::report_of(s), backfill: v.backfill })
        },
        v.stage == StageView::Fetching(s) && e is Bodies ==> {
            &&& w.stage == StageView::Storing(folder::delivered(s, e->Bodies_0@))
            &&& a == ActionView::Store(folder::deliveries(s, e->Bodies_0@))
        },
        v.stage is Over ==> w.stage is Over && a == (ActionView::Done {
            says: Seq::empty(),
            backfill: false,
        }),
{
}

/// The sync that a job is about, from the first moment on.
pub open spec fn about(stage: StageView) -> Option<SyncView> {
    match stage {
        StageView::Recording(s) => Some(s),
        StageView::Listing(s) => Some(s),
        StageView::Changing(s) => Some(s),
        StageView::Fetching(s) => Some(s),
        StageView::Storing(s) => Some(s),
        _ => None,
    }
}

/// A job keeps to its configuration from beginning to end: account, hooks, folder and directory
/// stay what they were, and in every stage the sync does what they ask for, whether or not the
/// epoch was known. The epoch and the number of messages are those that the server told.
pub proof fn law_job_keeps_to_its_configuration<'b>(
    states: Seq<JobView>,
    events: Seq<Event<'b>>,
    actions: Seq<ActionView>,
    n: int,
)
    requires
        is_run(states, events, actions),
        states[0].stage is Begun,
        0 <= n < states.len(),
    ensures
        states[n] == (JobView { stage: states[n].stage, ..states[0] }),
        states[n].stage matches StageView::Looking { uid_validity, exists } ==> exists|k: int|
            0 <= k < n && #[trigger] events[k] == (Event::Examined {
                uid_validity: Some(uid_validity),
                exists,
            }),
        about(states[n].stage) matches Some(s) ==> {
            let v = states[0];
            &&& s.label == v.acc.name@ + "/"@ + v.name
            &&& s.dir == v.dir
            &&& s.expunge == v.acc.expunge
            &&& s.sync_flags == v.acc.sync_flags
            &&& v.hooks.mail_received is Some ==> s.hook == Some(v.hooks.mail_received->0@)
            &&& v.hooks.mail_received is None ==> s.hook is None
            &&& exists|k: int|
                0 <= k < n && #[trigger] events[k] == (Event::Examined {
                    uid_validity: Some(s.uv),
                    exists: s.exists,
                })
        },
    decreases n,
{
    if n > 0 {
        law_job_keeps_to_its_configuration(states, events, actions, n - 1);
        let v = states[n - 1];
        let w = states[n];
        let e = events[n - 1];
        assert(goes_on(v, e, w, actions[n - 1]));
        if let StageView::Looking { uid_validity, exists } = w.stage {
            assert(e == (Event::Examined { uid_validity: Some(uid_validity), exists }));
        }
        if let Some(s) = about(w.stage) {
            if let Some(t) = about(v.stage) {
                assert(t.uv == s.uv && t.exists == s.exists);
            } else {
                assert(v.stage is Looking);
            }
        }
    }
}

/// Every message that a job stores runs the hook that is configured, with its own path put in,
/// on the first sync of a folder as on any later one; without a hook nothing runs.
pub proof fn law_every_stored_message_runs_the_configured_hook<'b>(
    states: Seq<JobView>,
    events: Seq<Event<'b>>,
    actions: Seq<ActionView>,
    n: int,
    mail: Seq<DeliveryView>,
    i: int,
)
    requires
        is_run(states, events, actions),
        states[0].stage is Begun,
        0 <= n < actions.len(),
        actions[n] == ActionView::Store(mail),
        0 <= i < mail.len(),
    ensures
        match states[0].hooks.mail_received {
            Some(command) => mail[i].hook == Some(hook::command_for(command@, mail[i].dst)),
            None => mail[i].hook is None,
        },
{
    law_job_keeps_to_its_configuration(states, events, actions, n);
    assert(goes_on(states[n], events[n], states[n + 1], actions[n]));
    assert(states[n].stage is Fetching && events[n] is Bodies);
    let s = states[n].stage->Fetching_0;
    assert(about(states[n].stage) == Some(s));
    let replies = events[n]->Bodies_0@;
    assert(mail == folder::deliveries(s, replies));
    let f = |b: BodyReply| folder::delivery_for(s, b);
    assert(mail.contains(mail[i]));
    replies.lemma_filter_map_contains(f, mail[i]);
}

/// Every message that the server sends with its UID and content is stored: as it came, with the
/// server's date, in the folder's directory, under the place of its flags and the epoch.
pub proof fn law_every_sent_message_is_stored<'b>(
    states: Seq<JobView>,
    events: Seq<Event<'b>>,
    actions: Seq<ActionView>,
    n: int,
    i: int,
)
    requires
        is_run(states, events, actions),
        states[0].stage is Begun,
        0 <= n < events.len(),
        states[n].stage is Fetching,
        events[n] is Bodies,
        0 <= i < events[n]->Bodies_0@.len(),
        events[n]->Bodies_0@[i].uid is Some,
        events[n]->Bodies_0@[i].body is Some,
    ensures
        actions[n] is Store,
        ({
            let b = events[n]->Bodies_0@[i];
            exists|j: int|
                {
                    &&& 0 <= j < actions[n]->Store_0.len()
                    &&& (#[trigger] actions[n]->Store_0[j]).data == b.body->0@
                    &&& actions[n]->Store_0[j].mtime == b.date
                    &&& actions[n]->Store_0[j].dst == folder::place(
                        states[0].dir,
                        states[n].stage->Fetching_0.uv,
                        b.uid->0,
                        maildir::info_of(b.flags@),
                    )
                }
        }),
{
    law_job_keeps_to_its_configuration(states, events, actions, n);
    assert(goes_on(states[n], events[n], states[n + 1], actions[n]));
    let s = states[n].stage->Fetching_0;
    assert(about(states[n].stage) == Some(s));
    let replies = events[n]->Bodies_0@;
    let b = replies[i];
    let d = folder::delivery_for(s, b)->0;
    folder::law_every_answer_is_stored(s, replies.take(i), seq![b] + replies.skip(i + 1), b);
    folder::law_every_answer_is_stored(s, seq![b], replies.skip(i + 1), b);
    assert(replies.take(i) + (seq![b] + replies.skip(i + 1)) =~= replies);
    let j = folder::deliveries(s, replies.take(i)).len() as int;
    assert(folder::deliveries(s, replies)[j] == d);
    assert(actions[n]->Store_0[j] == d);
}

/// Without `expunge` a job removes nothing, whatever the server answers.
pub proof fn law_job_removes_nothing_without_expunge<'b>(
    states: Seq<JobView>,
    events: Seq<Event<'b>>,
    actions: Seq<ActionView>,
    n: int,
    ops: Seq<FileOpView>,
    i: int,
)
    requires
        is_run(states, events, actions),
        states[0].stage is Begun,
        !states[0].acc.expunge,
        0 <= n < actions.len(),
        actions[n] == ActionView::Change(ops),
        0 <= i < ops.len(),
    ensures
        ops[i] is Rename,
{
    law_job_keeps_to_its_configuration(states, events, actions, n);
    assert(goes_on(states[n], events[n], states[n + 1], actions[n]));
    if ops[i] is Remove {
        law_removals_need_an_enumeration(
            states[n],
            events[n],
            states[n + 1],
            actions[n],
            ops,
            i,
        );
        assert(about(states[n].stage) is Some);
    }
}

/// An event that a job does not wait for ends it, without a word and without touching anything.
pub proof fn law_unexpected_event_ends_a_job<'b>(
    v: JobView,
    e: Event<'b>,
    w: JobView,
    a: ActionView,
)
    requires
        goes_on(v, e, w, a),
        !(v.stage is Begun && e is Started),
        !(v.stage is Creating && e is Created),
        !(v.stage is Examining && e is Examined),
        !(v.stage is Looking && e is Found),
        !(v.stage is Recording && e is Recorded),
        !(v.stage is Listing && e is Flags),
        !(v.stage is Changing && e is Changed),
        !(v.stage is Fetching && e is Bodies),
        !(v.stage is Storing && e is Stored),
    ensures
        w.stage is Over,
        a == (ActionView::Done { says: Seq::empty(), backfill: false }),
{
}

} // verus!

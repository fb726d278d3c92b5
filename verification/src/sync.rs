//! One account's session: which folders take part, and how the session goes on from one event
//! to the next.

use crate::config;
use crate::config::Account;
use crate::maildir;
use crate::text;
use vstd::prelude::*;
use vstd::string::StringExecFns;

verus! {

// ---------------------------------------------------------------------------
// Folders
// ---------------------------------------------------------------------------

/// A folder as the server lists it.
#[derive(Debug)]
pub struct Listed {
    pub name: String,
    pub delim: Option<String>,
    /// It holds no messages and cannot be opened.
    pub no_select: bool,
}

/// A folder and its local directory.
#[derive(Debug)]
pub struct Folder {
    pub name: String,
    pub dir: String,
}

/// A [`Folder`] over models.
pub struct FolderView {
    pub name: Seq<char>,
    pub dir: Seq<char>,
}

impl View for Folder {
    type V = FolderView;

    open spec fn view(&self) -> FolderView {
        FolderView { name: self.name@, dir: self.dir@ }
    }
}

/// The views of a list of folders.
pub open spec fn folder_views(v: Seq<Folder>) -> Seq<FolderView> {
    v.map_values(|f: Folder| f@)
}

/// The directory that a listed folder would get.
pub open spec fn dir_of(root: Seq<char>, l: Listed) -> Option<Seq<char>> {
    maildir::folder_dir(
        root,
        l.name@,
        match l.delim {
            Some(d) => Some(d@),
            None => None,
        },
    )
}

/// Whether a listed folder is to be synced at all: it can be opened, and the account names it
/// or names none.
pub open spec fn wanted(only: Seq<Seq<char>>, l: Listed) -> bool {
    !l.no_select && (only.len() == 0 || only.contains(l.name@))
}

/// Whether a folder of the list uses the directory.
pub open spec fn in_use(folders: Seq<FolderView>, dir: Seq<char>) -> bool {
    exists|i: int| 0 <= i < folders.len() && (#[trigger] folders[i]).dir == dir
}

/// The folders that take part, with their directories: the wanted ones that map to a directory
/// which no folder before them uses.
pub open spec fn chosen(only: Seq<Seq<char>>, root: Seq<char>, list: Seq<Listed>) -> Seq<
    FolderView,
>
    decreases list.len(),
{
    if list.len() == 0 {
        Seq::empty()
    } else {
        let before = chosen(only, root, list.drop_last());
        let l = list.last();
        match dir_of(root, l) {
            Some(dir) if wanted(only, l) && !in_use(before, dir) => before.push(
                FolderView { name: l.name@, dir },
            ),
            _ => before,
        }
    }
}

/// What is said of a wanted folder that does not take part, where `quoted` shows its name: the
/// directory is in use, or there is none.
pub open spec fn skip_words(acc: Seq<char>, quoted: Seq<char>, dir: Option<Seq<char>>) -> Seq<
    char,
> {
    acc + ": folder "@ + quoted + " skipped: "@ + (match dir {
        Some(d) => d + " is already used by another folder"@,
        None => "not a usable directory name"@,
    })
}

/// What is said of the wanted folders that do not take part.
pub open spec fn warnings(
    acc: Seq<char>,
    only: Seq<Seq<char>>,
    root: Seq<char>,
    list: Seq<Listed>,
) -> Seq<Seq<char>>
    decreases list.len(),
{
    if list.len() == 0 {
        Seq::empty()
    } else {
        let before = warnings(acc, only, root, list.drop_last());
        let l = list.last();
        let says = skip_words(acc, text::debug_form(l.name@), dir_of(root, l));
        if !wanted(only, l) {
            before
        } else {
            match dir_of(root, l) {
                Some(dir) => if in_use(chosen(only, root, list.drop_last()), dir) {
                    before.push(says)
                } else {
                    before
                },
                None => before.push(says),
            }
        }
    }
}

/// What to say of a wanted folder that does not take part, where `quoted` shows its name: the
/// directory is in use, or there is none.
pub fn skipped(acc: &str, quoted: &str, dir: Option<&str>) -> (r: String)
    ensures
        r@ == skip_words(acc@, quoted@, maildir::opt_view(dir)),
{
    let why = match dir {
        Some(d) => d.to_owned().concat(" is already used by another folder"),
        None => "not a usable directory name".to_owned(),
    };
    acc.to_owned().concat(": folder ").concat(quoted).concat(" skipped: ").concat(why.as_str())
}

/// What to say once an account is logged in.
pub fn connected(acc: &str, host: &str) -> (r: String)
    ensures
        r@ == acc@ + ": connected to "@ + host@,
{
    acc.to_owned().concat(": connected to ").concat(host)
}

/// What to say of a folder that the server refused.
pub fn refused(acc: &str, name: &str, why: &str) -> (r: String)
    ensures
        r@ == acc@ + "/"@ + name@ + ": skipped: "@ + why@,
{
    acc.to_owned().concat("/").concat(name).concat(": skipped: ").concat(why)
}

/// What to say of a host that has no address.
pub fn unresolved(acc: &str, host: &str) -> (r: String)
    ensures
        r@ == acc@ + ": "@ + host@ + " does not resolve"@,
{
    acc.to_owned().concat(": ").concat(host).concat(" does not resolve")
}

/// Whether a folder of the list uses the directory.
fn uses(folders: &Vec<Folder>, dir: &str) -> (r: bool)
    ensures
        r == in_use(folder_views(folders@), dir@),
{
    let ghost all = folder_views(folders@);
    let mut i: usize = 0;
    while i < folders.len()
        invariant
            i <= folders@.len(),
            all == folder_views(folders@),
            forall|k: int| 0 <= k < i ==> (#[trigger] all[k]).dir != dir@,
        decreases folders@.len() - i,
    {
        assert(all[i as int].dir == folders@[i as int].dir@);
        if text::same(folders[i].dir.as_str(), dir) {
            return true;
        }
        i = i + 1;
    }
    false
}

/// (imap name, local path) for every selectable folder, optionally filtered by config.
/// A folder whose name cannot be mapped to a directory below `root`, or whose directory
/// another folder already uses, is skipped with a warning rather than merged. The warnings
/// come second.
pub fn folders(acc: &Account, root: &str, list: &Vec<Listed>) -> (r: (Vec<Folder>, Vec<String>))
    ensures
        folder_views(r.0@) == chosen(text::views(acc.folders@), root@, list@),
        text::views(r.1@) == warnings(acc.name@, text::views(acc.folders@), root@, list@),
{
    let ghost only = text::views(acc.folders@);
    let mut out: Vec<Folder> = Vec::new();
    let mut says: Vec<String> = Vec::new();
    let mut i: usize = 0;
    proof {
        assert(list@.take(0) =~= Seq::empty());
        assert(folder_views(out@) =~= Seq::empty());
        assert(text::views(says@) =~= Seq::empty());
    }
    while i < list.len()
        invariant
            i <= list@.len(),
            only == text::views(acc.folders@),
            folder_views(out@) == chosen(only, root@, list@.take(i as int)),
            text::views(says@) == warnings(acc.name@, only, root@, list@.take(i as int)),
        decreases list@.len() - i,
    {
        let l = &list[i];
        let ghost done = folder_views(out@);
        let ghost said = text::views(says@);
        proof {
            assert(list@.take(i + 1).drop_last() =~= list@.take(i as int));
            assert(list@.take(i + 1).last() == *l);
        }
        if !l.no_select && (acc.folders.len() == 0 || config::listed(
            &acc.folders,
            l.name.as_str(),
        )) {
            let delim = match &l.delim {
                Some(d) => Some(d.as_str()),
                None => None,
            };
            match maildir::folder_path(root, l.name.as_str(), delim) {
                Some(dir) => {
                    if !uses(&out, dir.as_str()) {
                        let ghost f = FolderView { name: l.name@, dir: dir@ };
                        out.push(Folder { name: l.name.clone(), dir });
                        assert(folder_views(out@) =~= done.push(f));
                    } else {
                        let m = skipped(
                            acc.name.as_str(),
                            text::quoted(l.name.as_str()).as_str(),
                            Some(dir.as_str()),
                        );
                        let ghost w = m@;
                        says.push(m);
                        assert(text::views(says@) =~= said.push(w));
                    }
                },
                None => {
                    let m = skipped(
                        acc.name.as_str(),
                        text::quoted(l.name.as_str()).as_str(),
                        None,
                    );
                    let ghost w = m@;
                    says.push(m);
                    assert(text::views(says@) =~= said.push(w));
                },
            }
        }
        i = i + 1;
    }
    proof {
        assert(list@.take(i as int) =~= list@);
    }
    (out, says)
}

/// The folders that take part use different directories, each of them is wanted, and each
/// directory is the one that its name leads to.
pub proof fn law_folders_have_own_directories(
    only: Seq<Seq<char>>,
    root: Seq<char>,
    list: Seq<Listed>,
)
    ensures
        ({
            let out = chosen(only, root, list);
            &&& forall|i: int, j: int|
                0 <= i < j < out.len() ==> (#[trigger] out[i]).dir != (#[trigger] out[j]).dir
            &&& forall|i: int|
                0 <= i < out.len() ==> exists|k: int|
                    0 <= k < list.len() && wanted(only, #[trigger] list[k]) && (
                    #[trigger] out[i]).name == list[k].name@ && dir_of(root, list[k]) == Some(
                        out[i].dir,
                    )
        }),
    decreases list.len(),
{
    if list.len() > 0 {
        let front = list.drop_last();
        law_folders_have_own_directories(only, root, front);
        let before = chosen(only, root, front);
        let out = chosen(only, root, list);
        assert forall|i: int| 0 <= i < out.len() implies exists|k: int|
            0 <= k < list.len() && wanted(only, #[trigger] list[k]) && (#[trigger] out[i]).name
                == list[k].name@ && dir_of(root, list[k]) == Some(out[i].dir) by {
            if i < before.len() {
                assert(out[i] == before[i]);
                let k = choose|k: int|
                    0 <= k < front.len() && wanted(only, #[trigger] front[k]) && before[i].name
                        == front[k].name@ && dir_of(root, front[k]) == Some(before[i].dir);
                assert(list[k] == front[k]);
            } else {
                assert(list[list.len() - 1] == list.last());
            }
        }
        assert forall|i: int, j: int| 0 <= i < j < out.len() implies (#[trigger] out[i]).dir != (
        #[trigger] out[j]).dir by {
            assert(out[i] == before[i]);
            if j < before.len() {
                assert(out[j] == before[j]);
            }
        }
    }
}

/// A wanted folder with a usable name is never dropped in silence: it takes part, or a folder
/// that takes part uses its directory.
pub proof fn law_folders_are_not_lost(
    only: Seq<Seq<char>>,
    root: Seq<char>,
    list: Seq<Listed>,
    k: int,
)
    requires
        0 <= k < list.len(),
        wanted(only, list[k]),
        dir_of(root, list[k]) is Some,
    ensures
        in_use(chosen(only, root, list), dir_of(root, list[k])->0),
    decreases list.len(),
{
    let front = list.drop_last();
    let before = chosen(only, root, front);
    let out = chosen(only, root, list);
    let dir = dir_of(root, list[k])->0;
    if k < front.len() {
        assert(front[k] == list[k]);
        law_folders_are_not_lost(only, root, front, k);
    }
    if in_use(before, dir) {
        let i = choose|i: int| 0 <= i < before.len() && (#[trigger] before[i]).dir == dir;
        assert(out[i].dir == dir);
    } else {
        assert(out[before.len() as int].dir == dir);
    }
}

// ---------------------------------------------------------------------------
// The session
// ---------------------------------------------------------------------------

/// Socket timeout outside IDLE, in seconds. A half-open connection (laptop sleep, NAT reset)
/// would otherwise block an account forever with no reconnect.
pub const IO_TIMEOUT: u64 = 120;

/// Why the sync of a folder failed.
#[derive(Debug)]
pub enum Failure {
    /// The server said NO.
    No,
    /// The server said BAD.
    Bad,
    /// Anything else.
    Other,
}

/// How a wait for events ended.
#[derive(Debug)]
pub enum IdleEnd {
    /// Nothing happened for as long as the config says.
    TimedOut,
    /// Something happened in INBOX.
    Changed,
}

/// What has happened in a session.
#[derive(Debug)]
pub enum Event {
    /// It is logged in.
    Connected,
    /// The folders that take part were listed.
    Listed(Vec<Folder>),
    /// The folder was synced.
    Synced,
    /// The sync of the folder failed.
    Failed(Failure),
    /// The wait for events is over.
    Woke(IdleEnd),
}

/// What comes next in a session.
#[derive(Debug)]
pub enum Next {
    /// List the folders that this pattern matches, so that those created on the server since
    /// show up.
    List { pattern: &'static str },
    /// Sync this folder.
    Sync(Folder),
    /// Open this folder read-only and wait for events in it.
    Idle { folder: &'static str },
    /// Give the session up; the caller connects again.
    GiveUp,
}

/// An [`Event`] over models.
pub enum EventView {
    Connected,
    Listed(Seq<FolderView>),
    Synced,
    Failed(Failure),
    Woke(IdleEnd),
}

/// A [`Next`] over models.
pub enum NextView {
    List { pattern: Seq<char> },
    Sync(FolderView),
    Idle { folder: Seq<char> },
    GiveUp,
}

impl View for Event {
    type V = EventView;

    open spec fn view(&self) -> EventView {
        match *self {
            Event::Connected => EventView::Connected,
            Event::Listed(f) => EventView::Listed(folder_views(f@)),
            Event::Synced => EventView::Synced,
            Event::Failed(f) => EventView::Failed(f),
            Event::Woke(w) => EventView::Woke(w),
        }
    }
}

impl View for Next {
    type V = NextView;

    open spec fn view(&self) -> NextView {
        match *self {
            Next::List { pattern } => NextView::List { pattern: pattern@ },
            Next::Sync(f) => NextView::Sync(f@),
            Next::Idle { folder } => NextView::Idle { folder: folder@ },
            Next::GiveUp => NextView::GiveUp,
        }
    }
}

/// A session: whether the current pass is over all folders, and which are still to be synced.
#[derive(Debug)]
pub struct Session {
    full: bool,
    /// The folders to sync, the next one last.
    todo: Vec<Folder>,
}

/// A [`Session`] over models: the folders still to be synced, in order.
pub struct SessionView {
    pub full: bool,
    pub todo: Seq<FolderView>,
}

impl View for Session {
    type V = SessionView;

    closed spec fn view(&self) -> SessionView {
        SessionView { full: self.full, todo: folder_views(self.todo@).reverse() }
    }
}

/// After an event in INBOX only INBOX is synced; on the first pass and on a timeout everything
/// is.
pub open spec fn due(full: bool, f: FolderView) -> bool {
    full || f.name == "INBOX"@
}

/// Whether a failed folder is skipped: a tagged NO or BAD (no permission, vanished folder) is
/// this folder's problem only; the session is still in sync.
pub open spec fn skips(f: Failure) -> bool {
    f is No || f is Bad
}

/// Listing all folders.
pub open spec fn listing() -> NextView {
    NextView::List { pattern: "*"@ }
}

/// Waiting for events in INBOX.
pub open spec fn idling() -> NextView {
    NextView::Idle { folder: "INBOX"@ }
}

/// What comes next, with these folders to be synced.
pub open spec fn go_on(full: bool, todo: Seq<FolderView>) -> (SessionView, NextView) {
    if todo.len() == 0 {
        (SessionView { full, todo }, idling())
    } else {
        (SessionView { full, todo: todo.skip(1) }, NextView::Sync(todo[0]))
    }
}

/// How a session goes on after an event.
pub open spec fn step(s: SessionView, e: EventView) -> (SessionView, NextView) {
    match e {
        EventView::Connected => (
            SessionView { full: true, todo: Seq::empty() },
            listing(),
        ),
        EventView::Listed(f) => go_on(s.full, f.filter(|x: FolderView| due(s.full, x))),
        EventView::Synced => go_on(s.full, s.todo),
        EventView::Failed(f) => if skips(f) {
            go_on(s.full, s.todo)
        } else {
            (s, NextView::GiveUp)
        },
        EventView::Woke(w) => (
            SessionView { full: w is TimedOut, todo: Seq::empty() },
            listing(),
        ),
    }
}

impl Session {
    /// A session that is not connected yet; its first pass is over all folders.
    pub fn new() -> (r: Session)
        ensures
            r@ == (SessionView { full: true, todo: Seq::empty() }),
    {
        let r = Session { full: true, todo: Vec::new() };
        assert(r@.todo =~= Seq::empty());
        r
    }

    /// Goes on to the next folder, or to waiting.
    fn advance(&mut self) -> (r: Next)
        ensures
            (final(self)@, r@) == go_on(old(self)@.full, old(self)@.todo),
    {
        let ghost all = folder_views(self.todo@);
        match self.todo.pop() {
            Some(f) => {
                proof {
                    assert(f@ == all.last());
                    assert(all.reverse()[0] == all.last());
                    assert(folder_views(self.todo@) =~= all.drop_last());
                    assert(all.drop_last().reverse() =~= all.reverse().skip(1));
                }
                Next::Sync(f)
            },
            None => Next::Idle { folder: "INBOX" },
        }
    }

    /// Keeps the folders that are due, the first one last.
    fn schedule(&mut self, folders: Vec<Folder>)
        ensures
            final(self)@.full == old(self)@.full,
            final(self)@.todo == folder_views(folders@).filter(
                |x: FolderView| due(old(self)@.full, x),
            ),
    {
        let ghost all = folder_views(folders@);
        let ghost f = |x: FolderView| due(self.full, x);
        let mut rest = folders;
        let mut due_last: Vec<Folder> = Vec::new();
        proof {
            assert(all.skip(all.len() as int) =~= Seq::empty());
            assert(Seq::<FolderView>::empty().filter(f) =~= Seq::empty()) by {
                reveal_with_fuel(Seq::filter, 1);
            }
            assert(folder_views(due_last@).reverse() =~= Seq::empty());
            assert(folder_views(rest@) =~= all.take(rest@.len() as int));
        }
        while rest.len() > 0
            invariant
                *self == *old(self),
                f == (|x: FolderView| due(self.full, x)),
                rest@.len() <= all.len(),
                folder_views(rest@) == all.take(rest@.len() as int),
                folder_views(due_last@).reverse() == all.skip(rest@.len() as int).filter(f),
            decreases rest@.len(),
        {
            let ghost n = rest@.len() as int;
            let ghost before = folder_views(due_last@);
            let ghost tail = all.skip(n);
            if let Some(folder) = rest.pop() {
                let ghost x = folder@;
                proof {
                    assert(all.take(n).last() == x);
                    assert(all[n - 1] == x);
                    assert(folder_views(rest@) =~= all.take(n - 1));
                    assert(all.skip(n - 1) =~= seq![x] + tail);
                    tail.lemma_filter_prepend(x, f);
                }
                if self.full || text::same(folder.name.as_str(), "INBOX") {
                    due_last.push(folder);
                    proof {
                        assert(folder_views(due_last@) =~= before.push(x));
                        assert(before.push(x).reverse() =~= seq![x] + before.reverse());
                    }
                }
            }
        }
        self.todo = due_last;
        proof {
            assert(all.skip(0) =~= all);
            assert(f =~= |x: FolderView| due(old(self)@.full, x));
        }
    }

    /// Takes in what has happened and says what comes next. Connect, sync every folder, then
    /// loop: wait for events in INBOX -> sync. A session only ends by being given up.
    pub fn next(&mut self, event: Event) -> (r: Next)
        ensures
            (final(self)@, r@) == step(old(self)@, event@),
    {
        match event {
            Event::Connected => {
                self.full = true;
                self.todo = Vec::new();
                assert(self@.todo =~= Seq::empty());
                Next::List { pattern: "*" }
            },
            Event::Listed(folders) => {
                self.schedule(folders);
                self.advance()
            },
            Event::Synced => self.advance(),
            Event::Failed(failure) => match failure {
                Failure::No => self.advance(),
                Failure::Bad => self.advance(),
                Failure::Other => Next::GiveUp,
            },
            Event::Woke(end) => {
                self.full = match end {
                    IdleEnd::TimedOut => true,
                    IdleEnd::Changed => false,
                };
                self.todo = Vec::new();
                assert(self@.todo =~= Seq::empty());
                Next::List { pattern: "*" }
            },
        }
    }
}

// ---------------------------------------------------------------------------
// Laws of a session
// ---------------------------------------------------------------------------

/// What comes next after each of some events in order.
pub open spec fn actions(s: SessionView, events: Seq<EventView>) -> Seq<NextView>
    decreases events.len(),
{
    if events.len() == 0 {
        Seq::empty()
    } else {
        let (after, next) = step(s, events[0]);
        seq![next] + actions(after, events.skip(1))
    }
}

/// An event after which the session goes on to the next folder.
pub open spec fn carries_on(e: EventView) -> bool {
    match e {
        EventView::Synced => true,
        EventView::Failed(f) => skips(f),
        _ => false,
    }
}

/// Syncing each folder in turn, and then waiting.
pub open spec fn each_then_idle(todo: Seq<FolderView>) -> Seq<NextView> {
    todo.map_values(|f: FolderView| NextView::Sync(f)).push(idling())
}

/// The rest of a pass.
proof fn lemma_rest_of_pass(s: SessionView, results: Seq<EventView>)
    requires
        results.len() == s.todo.len() + 1,
        forall|i: int| 0 <= i < results.len() ==> carries_on(#[trigger] results[i]),
    ensures
        actions(s, results) == each_then_idle(s.todo),
    decreases results.len(),
{
    let rest = results.skip(1);
    assert(carries_on(results[0]));
    let (after, next) = step(s, results[0]);
    if s.todo.len() == 0 {
        assert(rest =~= Seq::empty());
        assert(actions(after, rest) =~= Seq::empty());
        assert(actions(s, results) =~= each_then_idle(s.todo));
    } else {
        assert forall|i: int| 0 <= i < rest.len() implies carries_on(#[trigger] rest[i]) by {
            assert(rest[i] == results[i + 1]);
        }
        lemma_rest_of_pass(after, rest);
        assert(seq![NextView::Sync(s.todo[0])] + each_then_idle(s.todo.skip(1))
            =~= each_then_idle(s.todo));
    }
}

/// One folder's trouble never stops the others: after the folders were listed, every folder
/// that is due is synced, in order, and then the session waits, however many of them the
/// server refuses.
pub proof fn law_refused_folders_do_not_stop_the_others(
    s: SessionView,
    listed: Seq<FolderView>,
    results: Seq<EventView>,
)
    requires
        results.len() == listed.filter(|x: FolderView| due(s.full, x)).len(),
        forall|i: int| 0 <= i < results.len() ==> carries_on(#[trigger] results[i]),
    ensures
        actions(s, seq![EventView::Listed(listed)] + results) == each_then_idle(
            listed.filter(|x: FolderView| due(s.full, x)),
        ),
{
    let todo = listed.filter(|x: FolderView| due(s.full, x));
    let events = seq![EventView::Listed(listed)] + results;
    let (after, next) = step(s, events[0]);
    assert(events.skip(1) =~= results);
    if todo.len() == 0 {
        assert(actions(after, results) =~= Seq::empty());
        assert(actions(s, events) =~= each_then_idle(todo));
    } else {
        lemma_rest_of_pass(after, results);
        assert(seq![NextView::Sync(todo[0])] + each_then_idle(todo.skip(1)) =~= each_then_idle(
            todo,
        ));
    }
}

/// On the first pass, and after a wait in which nothing happened, every listed folder is due;
/// after an event in INBOX, exactly the folders called INBOX are.
pub proof fn law_which_folders_are_due(s: SessionView, end: IdleEnd, listed: Seq<FolderView>)
    ensures
        ({
            let first = step(s, EventView::Connected).0;
            let again = step(s, EventView::Woke(end)).0;
            &&& listed.filter(|x: FolderView| due(first.full, x)) == listed
            &&& end is TimedOut ==> listed.filter(|x: FolderView| due(again.full, x)) == listed
            &&& end is Changed ==> listed.filter(|x: FolderView| due(again.full, x))
                == listed.filter(|x: FolderView| x.name == "INBOX"@)
        }),
{
    let first = step(s, EventView::Connected).0;
    let again = step(s, EventView::Woke(end)).0;
    lemma_all_pass(listed, |x: FolderView| due(first.full, x));
    if end is TimedOut {
        lemma_all_pass(listed, |x: FolderView| due(again.full, x));
    } else {
        lemma_same_filter(
            listed,
            |x: FolderView| due(again.full, x),
            |x: FolderView| x.name == "INBOX"@,
        );
    }
}

/// A filter that everything passes changes nothing.
proof fn lemma_all_pass(s: Seq<FolderView>, f: spec_fn(FolderView) -> bool)
    requires
        forall|x: FolderView| #[trigger] f(x),
    ensures
        s.filter(f) == s,
    decreases s.len(),
{
    reveal(Seq::filter);
    if s.len() > 0 {
        lemma_all_pass(s.drop_last(), f);
        assert(s.drop_last().push(s.last()) =~= s);
    }
}

/// Filters that agree give the same.
proof fn lemma_same_filter(
    s: Seq<FolderView>,
    f: spec_fn(FolderView) -> bool,
    g: spec_fn(FolderView) -> bool,
)
    requires
        forall|x: FolderView| #[trigger] f(x) == g(x),
    ensures
        s.filter(f) == s.filter(g),
    decreases s.len(),
{
    reveal(Seq::filter);
    if s.len() > 0 {
        lemma_same_filter(s.drop_last(), f, g);
    }
}

/// Any other failure ends the session, and nothing else does.
pub proof fn law_only_other_failures_end_a_session(s: SessionView, e: EventView)
    ensures
        step(s, e).1 is GiveUp <==> e == EventView::Failed(Failure::Other),
{
}

// ---------------------------------------------------------------------------
// What these functions mean
// ---------------------------------------------------------------------------

/// The models of folders, events and steps show everything in them.
pub proof fn law_models_show_every_folder_and_step(
    v: Vec<Folder>,
    f: Folder,
    failure: Failure,
    end: IdleEnd,
    s: &'static str,
)
    ensures
        f@.name == f.name@ && f@.dir == f.dir@,
        folder_views(v@).len() == v@.len(),
        forall|i: int| 0 <= i < v@.len() ==> #[trigger] folder_views(v@)[i] == v@[i]@,
        Event::Connected@ == EventView::Connected,
        Event::Listed(v)@ == EventView::Listed(folder_views(v@)),
        Event::Synced@ == EventView::Synced,
        Event::Failed(failure)@ == EventView::Failed(failure),
        Event::Woke(end)@ == EventView::Woke(end),
        (Next::List { pattern: s })@ == (NextView::List { pattern: s@ }),
        Next::Sync(f)@ == NextView::Sync(f@),
        (Next::Idle { folder: s })@ == (NextView::Idle { folder: s@ }),
        Next::GiveUp@ == NextView::GiveUp,
{
}

/// The directory of a listed folder is the one that its name and delimiter lead to.
pub proof fn law_directory_of_a_listed_folder(root: Seq<char>, l: Listed)
    ensures
        l.delim is Some ==> dir_of(root, l) == maildir::folder_dir(
            root,
            l.name@,
            Some(l.delim->0@),
        ),
        l.delim is None ==> dir_of(root, l) == maildir::folder_dir(root, l.name@, None),
{
}

/// Every folder that can be opened, has a usable name, and stands anywhere in the account's list
/// takes part, or its directory is used by one that does; where the account lists none, every
/// such folder does.
pub proof fn law_every_named_folder_takes_part(
    acc: Account,
    root: Seq<char>,
    list: Seq<Listed>,
    k: int,
)
    requires
        0 <= k < list.len(),
        !list[k].no_select,
        dir_of(root, list[k]) is Some,
        acc.folders@.len() == 0 || exists|j: int|
            0 <= j < acc.folders@.len() && (#[trigger] acc.folders@[j])@ == list[k].name@,
    ensures
        ({
            let out = chosen(text::views(acc.folders@), root, list);
            exists|i: int|
                0 <= i < out.len() && Some((#[trigger] out[i]).dir) == dir_of(root, list[k])
        }),
{
    let only = text::views(acc.folders@);
    if acc.folders@.len() > 0 {
        let j = choose|j: int|
            0 <= j < acc.folders@.len() && (#[trigger] acc.folders@[j])@ == list[k].name@;
        assert(only[j] == list[k].name@);
    }
    law_folders_are_not_lost(only, root, list, k);
    let out = chosen(only, root, list);
    let dir = dir_of(root, list[k])->0;
    let i = choose|i: int| 0 <= i < out.len() && (#[trigger] out[i]).dir == dir;
    assert(Some(out[i].dir) == dir_of(root, list[k]));
}

/// No other folder takes part: each that does is a listed one that can be opened, in the
/// directory of its name, and stands in the account's list if there is one.
pub proof fn law_only_named_folders_take_part(
    acc: Account,
    root: Seq<char>,
    list: Seq<Listed>,
    i: int,
)
    requires
        0 <= i < chosen(text::views(acc.folders@), root, list).len(),
    ensures
        ({
            let f = chosen(text::views(acc.folders@), root, list)[i];
            &&& exists|k: int|
                {
                    &&& 0 <= k < list.len()
                    &&& (#[trigger] list[k]).name@ == f.name
                    &&& !list[k].no_select
                    &&& dir_of(root, list[k]) == Some(f.dir)
                }
            &&& acc.folders@.len() > 0 ==> exists|j: int|
                0 <= j < acc.folders@.len() && (#[trigger] acc.folders@[j])@ == f.name
        }),
{
    let only = text::views(acc.folders@);
    law_folders_have_own_directories(only, root, list);
    let out = chosen(only, root, list);
    let k = choose|k: int|
        0 <= k < list.len() && wanted(only, #[trigger] list[k]) && out[i].name == list[k].name@
            && dir_of(root, list[k]) == Some(out[i].dir);
    assert(list[k].name@ == out[i].name);
    if acc.folders@.len() > 0 {
        let j = choose|j: int| 0 <= j < only.len() && only[j] == list[k].name@;
        assert(acc.folders@[j]@ == out[i].name);
    }
}

/// One more listed folder: it takes part, last, if it can be opened, is one of those that the
/// account wants, and has a directory that no folder before it uses. If only the directory is
/// the trouble, that is said; in any other case it changes nothing.
pub proof fn law_one_more_folder(
    acc: Seq<char>,
    only: Seq<Seq<char>>,
    root: Seq<char>,
    list: Seq<Listed>,
    l: Listed,
)
    ensures
        chosen(only, root, Seq::empty()) == Seq::<FolderView>::empty(),
        warnings(acc, only, root, Seq::empty()) == Seq::<Seq<char>>::empty(),
        ({
            let wants = !l.no_select && (only.len() == 0 || only.contains(l.name@));
            let dir = dir_of(root, l);
            let before = chosen(only, root, list);
            let said = warnings(acc, only, root, list);
            let after = chosen(only, root, list.push(l));
            let says = warnings(acc, only, root, list.push(l));
            let what = acc + ": folder "@ + text::debug_form(l.name@) + " skipped: "@;
            let used = exists|i: int|
                0 <= i < before.len() && Some((#[trigger] before[i]).dir) == dir;
            &&& !wants ==> after == before && says == said
            &&& wants && dir is None ==> after == before && says == said.push(
                what + "not a usable directory name"@,
            )
            &&& wants && dir is Some && used ==> after == before && says == said.push(
                what + (dir->0 + " is already used by another folder"@),
            )
            &&& wants && dir is Some && !used ==> says == said && after == before.push(
                FolderView { name: l.name@, dir: dir->0 },
            )
        }),
{
    let before = chosen(only, root, list);
    let dir = dir_of(root, l);
    assert(list.push(l).drop_last() =~= list);
    assert(list.push(l).last() == l);
    if dir is Some {
        if in_use(before, dir->0) {
            let i = choose|i: int| 0 <= i < before.len() && (#[trigger] before[i]).dir == dir->0;
            assert(Some(before[i].dir) == dir);
        }
        if exists|i: int| 0 <= i < before.len() && Some((#[trigger] before[i]).dir) == dir {
            let i = choose|i: int| 0 <= i < before.len() && Some((#[trigger] before[i]).dir) == dir;
            assert(before[i].dir == dir->0);
        }
    }
}

/// How a session goes on: connecting and every end of a wait lead to a new list of all folders;
/// after it each folder that is due is synced in turn, and then the session waits in INBOX.
/// Nothing but a failure that is no answer of the server's ends it.
pub proof fn law_session_step_by_step(s: SessionView, listed: Seq<FolderView>)
    ensures
        step(s, EventView::Connected) == (
            SessionView { full: true, todo: Seq::empty() },
            NextView::List { pattern: "*"@ },
        ),
        step(s, EventView::Woke(IdleEnd::TimedOut)) == (
            SessionView { full: true, todo: Seq::empty() },
            NextView::List { pattern: "*"@ },
        ),
        step(s, EventView::Woke(IdleEnd::Changed)) == (
            SessionView { full: false, todo: Seq::empty() },
            NextView::List { pattern: "*"@ },
        ),
        step(s, EventView::Failed(Failure::Other)) == (s, NextView::GiveUp),
        forall|e: EventView|
            e is Synced || e == EventView::Failed(Failure::No) || e == EventView::Failed(
                Failure::Bad,
            ) ==> #[trigger] step(s, e) == if s.todo.len() > 0 {
                (
                    SessionView { full: s.full, todo: s.todo.skip(1) },
                    NextView::Sync(s.todo[0]),
                )
            } else {
                (s, NextView::Idle { folder: "INBOX"@ })
            },
        s.full && listed.len() == 0 ==> step(s, EventView::Listed(listed)) == (
            SessionView { full: true, todo: Seq::empty() },
            NextView::Idle { folder: "INBOX"@ },
        ),
        s.full && listed.len() > 0 ==> step(s, EventView::Listed(listed)) == (
            SessionView { full: true, todo: listed.skip(1) },
            NextView::Sync(listed[0]),
        ),
{
    if s.full {
        lemma_all_pass(listed, |x: FolderView| due(s.full, x));
        assert(listed.len() == 0 ==> listed =~= Seq::empty());
    }
}

/// After an event in INBOX, a folder is synced if and only if it is called INBOX.
pub proof fn law_only_inbox_is_due_after_an_event(s: SessionView, listed: Seq<FolderView>)
    requires
        !s.full,
    ensures
        ({
            let inbox = listed.filter(|x: FolderView| x.name == "INBOX"@);
            let (after, next) = step(s, EventView::Listed(listed));
            &&& !after.full
            &&& inbox.len() == 0 ==> after.todo.len() == 0 && next == (NextView::Idle {
                folder: "INBOX"@,
            })
            &&& inbox.len() > 0 ==> after.todo == inbox.skip(1) && next == NextView::Sync(inbox[0])
        }),
{
    lemma_same_filter(
        listed,
        |x: FolderView| due(s.full, x),
        |x: FolderView| x.name == "INBOX"@,
    );
}

} // verus!

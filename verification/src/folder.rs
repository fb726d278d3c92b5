//! One folder's sync: what is kept, removed, renamed and fetched to bring the local Maildir in
//! line with the server.

use crate::config::Account;
use crate::config::Hooks;
use crate::hook;
use crate::maildir;
use crate::maildir::Flag;
use crate::path;
use crate::text;
use std::collections::BTreeMap;
use vstd::prelude::*;
use vstd::string::StringExecFns;

verus! {

/// How many messages are fetched at a time.
pub const BATCH: usize = 25;

// ---------------------------------------------------------------------------
// What the server says
// ---------------------------------------------------------------------------

/// The answer for one message to a fetch of UIDs and flags.
#[derive(Debug)]
pub struct FlagsReply {
    pub uid: Option<u32>,
    pub flags: Vec<Flag>,
}

/// The answer for one message to a fetch of its content.
#[derive(Debug)]
pub struct BodyReply<'a> {
    pub uid: Option<u32>,
    pub flags: Vec<Flag>,
    /// When the server received the message, as a unix timestamp.
    pub date: Option<i64>,
    pub body: Option<&'a [u8]>,
}

/// UID to info letters, as the server reports them; the last answer for a UID counts.
pub open spec fn reported(replies: Seq<FlagsReply>) -> Map<u32, Seq<char>>
    decreases replies.len(),
{
    if replies.len() == 0 {
        Map::empty()
    } else {
        let before = reported(replies.drop_last());
        match replies.last().uid {
            Some(uid) => before.insert(uid, maildir::info_of(replies.last().flags@)),
            None => before,
        }
    }
}

// ---------------------------------------------------------------------------
// What is done
// ---------------------------------------------------------------------------

/// One change to a stored message.
#[derive(Debug)]
pub enum FileOp {
    Remove { uid: u32, path: String },
    Rename { uid: u32, from: String, to: String },
}

/// A [`FileOp`] over models.
pub enum FileOpView {
    Remove { uid: u32, path: Seq<char> },
    Rename { uid: u32, from: Seq<char>, to: Seq<char> },
}

impl View for FileOp {
    type V = FileOpView;

    open spec fn view(&self) -> FileOpView {
        match *self {
            FileOp::Remove { uid, path } => FileOpView::Remove { uid, path: path@ },
            FileOp::Rename { uid, from, to } => FileOpView::Rename { uid, from: from@, to: to@ },
        }
    }
}

impl FileOpView {
    /// The message that changes.
    pub open spec fn uid(self) -> u32 {
        match self {
            FileOpView::Remove { uid, .. } => uid,
            FileOpView::Rename { uid, .. } => uid,
        }
    }
}

/// The views of a list of changes.
pub open spec fn op_views(v: Seq<FileOp>) -> Seq<FileOpView> {
    v.map_values(|o: FileOp| o@)
}

/// A message to store: its content goes to `tmp` and is then published as `dst`.
#[derive(Debug)]
pub struct Delivery<'a> {
    pub tmp: String,
    pub dst: String,
    pub mtime: Option<i64>,
    pub data: &'a [u8],
    /// The command to run once the message is stored.
    pub hook: Option<String>,
}

/// A [`Delivery`] over models.
pub struct DeliveryView {
    pub tmp: Seq<char>,
    pub dst: Seq<char>,
    pub mtime: Option<i64>,
    pub data: Seq<u8>,
    pub hook: Option<Seq<char>>,
}

/// The view of an optional text.
pub open spec fn opt_text(s: Option<String>) -> Option<Seq<char>> {
    match s {
        Some(t) => Some(t@),
        None => None,
    }
}

impl<'a> View for Delivery<'a> {
    type V = DeliveryView;

    open spec fn view(&self) -> DeliveryView {
        DeliveryView {
            tmp: self.tmp@,
            dst: self.dst@,
            mtime: self.mtime,
            data: self.data@,
            hook: opt_text(self.hook),
        }
    }
}

/// The views of a list of deliveries.
pub open spec fn delivery_views(v: Seq<Delivery>) -> Seq<DeliveryView> {
    v.map_values(|d: Delivery| d@)
}

// ---------------------------------------------------------------------------
// The state of a sync
// ---------------------------------------------------------------------------

/// A folder that is being synced.
#[derive(Debug)]
pub struct FolderSync {
    label: String,
    dir: String,
    uv: u32,
    fresh: bool,
    exists: u32,
    expunge: bool,
    sync_flags: bool,
    hook: Option<String>,
    local: BTreeMap<u32, String>,
    remote: BTreeMap<u32, String>,
    pending: Vec<u32>,
    next: usize,
    asked: usize,
    removed: usize,
    orphans: usize,
    added: usize,
    missing: usize,
}

/// A [`FolderSync`] over models.
pub struct SyncView {
    /// Account and folder, for messages.
    pub label: Seq<char>,
    pub dir: Seq<char>,
    /// The epoch that the UIDs belong to.
    pub uv: u32,
    /// The epoch is not recorded yet.
    pub fresh: bool,
    /// How many messages the server claims to have.
    pub exists: u32,
    pub expunge: bool,
    pub sync_flags: bool,
    pub hook: Option<Seq<char>>,
    /// Stored messages: UID to path.
    pub local: Map<u32, Seq<char>>,
    /// The server's messages: UID to info letters.
    pub remote: Map<u32, Seq<char>>,
    /// The UIDs still to fetch.
    pub pending: Seq<u32>,
    /// How many messages the last batch asked for.
    pub asked: nat,
    pub removed: nat,
    pub orphans: nat,
    pub added: nat,
    pub missing: nat,
}

impl View for FolderSync {
    type V = SyncView;

    closed spec fn view(&self) -> SyncView {
        SyncView {
            label: self.label@,
            dir: self.dir@,
            uv: self.uv,
            fresh: self.fresh,
            exists: self.exists,
            expunge: self.expunge,
            sync_flags: self.sync_flags,
            hook: opt_text(self.hook),
            local: maildir::texts(self.local@),
            remote: maildir::texts(self.remote@),
            pending: self.pending@.skip(self.next as int),
            asked: self.asked as nat,
            removed: self.removed as nat,
            orphans: self.orphans as nat,
            added: self.added as nat,
            missing: self.missing as nat,
        }
    }
}

impl FolderSync {
    /// What every state of a sync keeps.
    pub closed spec fn inv(&self) -> bool {
        &&& self.next <= self.pending@.len()
        &&& self.asked <= BATCH
        &&& self.missing + self.asked + (self.pending@.len() - self.next) <= self.pending@.len()
    }
}

/// Where message `uid` with the given info letters belongs.
pub open spec fn place(dir: Seq<char>, uv: u32, uid: u32, info: Seq<char>) -> Seq<char> {
    path::joined(
        path::joined(dir, maildir::subdir_of(info)),
        maildir::name_of(uv, uid, info),
    )
}

pub open spec fn strictly_ascending(s: Seq<u32>) -> bool {
    forall|i: int, j: int| 0 <= i < j < s.len() ==> s[i] < s[j]
}

/// The order in which a tree map hands out its keys is that of the numbers.
proof fn lemma_increasing(s: Seq<u32>)
    requires
        vstd::std_specs::btree::increasing_seq(s),
    ensures
        strictly_ascending(s),
{
    broadcast use vstd::laws_cmp::group_laws_cmp;

    assert(vstd::laws_cmp::obeys_cmp::<u32>());
    assert forall|i: int, j: int| 0 <= i < j < s.len() implies s[i] < s[j] by {
        assert(vstd::std_specs::cmp::OrdSpec::cmp_spec(&s[i], &s[j]) is Less);
    }
}

/// The keys of `m` in ascending order.
fn keys_of(m: &BTreeMap<u32, String>) -> (r: Vec<u32>)
    ensures
        strictly_ascending(r@),
        forall|k: u32| r@.contains(k) <==> m@.contains_key(k),
{
    let mut r: Vec<u32> = Vec::new();
    for e in it: m.iter()
        invariant
            r@.len() == it.index() <= it.seq().len(),
            strictly_ascending(r@),
            forall|i: int| 0 <= i < r@.len() ==> #[trigger] r@[i] == *it.seq()[i].0,
            forall|i: int| 0 <= i < r@.len() ==> m@.contains_key(#[trigger] r@[i]),
            forall|i: int|
                0 <= i < it.seq().len() ==> m@.contains_key(*(#[trigger] it.seq()[i]).0),
            vstd::std_specs::btree::increasing_seq(
                it.seq().map_values(|kv: (&u32, &String)| *kv.0),
            ),
            forall|k: u32| #[trigger]
                m@.contains_key(k) ==> r@.contains(k) || exists|i: int|
                    it.index() <= i < it.seq().len() && *(#[trigger] it.seq()[i]).0 == k,
    {
        let ghost done = r@;
        let ghost keys = it.seq().map_values(|kv: (&u32, &String)| *kv.0);
        r.push(*e.0);
        proof {
            let n = it.index() as int;
            lemma_increasing(keys);
            assert forall|i: int, j: int| 0 <= i < j < r@.len() implies r@[i] < r@[j] by {
                assert(keys[i] == r@[i]);
                assert(keys[j] == r@[j]);
            }
            assert forall|k: u32| #[trigger] m@.contains_key(k) implies r@.contains(k) || exists|
                i: int,
            |
                n + 1 <= i < it.seq().len() && *(#[trigger] it.seq()[i]).0 == k by {
                if done.contains(k) {
                    let i = choose|i: int| 0 <= i < done.len() && done[i] == k;
                    assert(r@[i] == k);
                } else {
                    let i = choose|i: int|
                        n <= i < it.seq().len() && *(#[trigger] it.seq()[i]).0 == k;
                    if i == n {
                        assert(r@[n] == k);
                    }
                }
            }
        }
    }
    r
}

/// Where message `uid` with the given info letters belongs.
fn place_of(dir: &str, uv: u32, uid: u32, info: &str) -> (r: String)
    ensures
        r@ == place(dir@, uv, uid, info@),
{
    path::join(
        path::join(dir, maildir::subdir(info)).as_str(),
        maildir::file_name(uv, uid, info).as_str(),
    )
}

// ---------------------------------------------------------------------------
// Opening a folder
// ---------------------------------------------------------------------------

/// The epoch that a state file records: a number on its first line.
pub open spec fn recorded(state: Seq<char>) -> Option<u32> {
    text::parsed_u32(text::trimmed(text::split(state, seq!['\n'])[0]))
}

/// The content of the state file for an epoch.
pub open spec fn state_of(uv: u32) -> Seq<char> {
    text::decimal(uv as nat) + seq!['\n']
}

/// Why a folder is left untouched: it holds `n` messages, but not of this epoch, as far as the
/// state file tells.
pub open spec fn refusal(
    old: Option<u32>,
    uv: u32,
    n: nat,
) -> Seq<char> {
    match old {
        Some(o) => "UIDVALIDITY changed ("@ + text::decimal(o as nat) + " -> "@ + text::decimal(
            uv as nat,
        ) + ")"@,
        None => "no .uidvalidity but "@ + text::decimal(n) + " messages present"@,
    }
}

/// What the server and the disk say of a folder when it is opened.
#[derive(Debug)]
pub struct Opened {
    pub uid_validity: u32,
    pub exists: u32,
    /// The content of the state file, if it can be read.
    pub state: Option<String>,
    /// The file names in `cur` and in `new`.
    pub cur: Vec<String>,
    pub new: Vec<String>,
    /// How many more files are there, whose names are no text.
    pub unreadable: usize,
}

impl Opened {
    /// The messages that are stored.
    pub open spec fn local(self, dir: Seq<char>) -> Map<u32, Seq<char>> {
        maildir::stored(dir, text::views(self.cur@), text::views(self.new@))
    }

    /// The epoch that the stored messages belong to, as far as the state file tells.
    pub open spec fn epoch(self) -> Option<u32> {
        match self.state {
            Some(text) => recorded(text@),
            None => None,
        }
    }

    /// How many files are there, whatever their names are.
    pub open spec fn files(self) -> nat {
        self.cur@.len() + self.new@.len() + self.unreadable as nat
    }

    /// How many messages are there: those with a UID in their names, or where no name has one,
    /// all files.
    pub open spec fn messages(self, dir: Seq<char>) -> nat {
        if self.local(dir).dom().is_empty() {
            self.files()
        } else {
            self.local(dir).dom().len()
        }
    }

    /// Whether the folder is synced: no file is there, whatever its name, or those that are
    /// belong to the server's epoch.
    pub open spec fn accepted(self) -> bool {
        self.epoch() == Some(self.uid_validity) || self.files() == 0
    }
}

/// What is said of a folder that is left untouched.
pub open spec fn untouched_words(
    acc: Account,
    name: Seq<char>,
    dir: Seq<char>,
    found: Opened,
) -> Seq<char> {
    acc.name@ + "/"@ + name + ": "@ + refusal(
        found.epoch(),
        found.uid_validity,
        found.messages(dir),
    ) + " - folder left untouched. Move "@ + dir + " aside to resume syncing it."@
}

/// How a sync begins.
pub open spec fn opened(
    acc: Account,
    hooks: Hooks,
    name: Seq<char>,
    dir: Seq<char>,
    found: Opened,
) -> SyncView {
    SyncView {
        label: acc.name@ + "/"@ + name,
        dir,
        uv: found.uid_validity,
        fresh: found.epoch() != Some(found.uid_validity),
        exists: found.exists,
        expunge: acc.expunge,
        sync_flags: acc.sync_flags,
        hook: opt_text(hooks.mail_received),
        local: found.local(dir),
        remote: Map::empty(),
        pending: Seq::empty(),
        asked: 0,
        removed: 0,
        orphans: 0,
        added: 0,
        missing: 0,
    }
}

/// Whether a folder is synced.
#[derive(Debug)]
pub enum Opening {
    /// Yes.
    Start(FolderSync),
    /// It is left untouched; the message says why.
    Untouched(String),
}

/// The epoch that a state file records.
pub fn read_state(state: &str) -> (r: Option<u32>)
    ensures
        r == recorded(state@),
{
    proof {
        reveal_strlit("\n");
        assert("\n"@ =~= seq!['\n']);
    }
    let lines = text::split_by(state, "\n");
    assert(text::views(lines@)[0] == lines@[0]@);
    text::parse_u32(text::trim(lines[0].as_str()).as_str())
}

impl FolderSync {
    /// Decides whether a folder is synced. A changed UIDVALIDITY invalidates every local UID,
    /// but that is never a reason to delete mail: the server may have been migrated or the
    /// folder recreated. Such a folder is not touched, and the operator decides (move the
    /// directory aside, then the next run refetches it into a fresh one). The same applies to
    /// a directory that holds mail but no state file: its UIDs are of unknown origin.
    pub fn open(acc: &Account, hooks: &Hooks, name: &str, dir: &str, found: &Opened) -> (r: Opening)
        ensures
            match r {
                Opening::Start(s) => {
                    &&& found.accepted()
                    &&& s.inv()
                    &&& s@ == opened(*acc, *hooks, name@, dir@, *found)
                },
                Opening::Untouched(m) => {
                    &&& !found.accepted()
                    &&& m@ == untouched_words(*acc, name@, dir@, *found)
                },
            },
    {
        let uv = found.uid_validity;
        let label = acc.name.clone().concat("/").concat(name);
        let old_uv = match &found.state {
            Some(state) => read_state(state.as_str()),
            None => None,
        };
        let local = maildir::scan(dir, &found.cur, &found.new);
        assert(maildir::texts(local@).dom() =~= local@.dom());
        let known = match old_uv {
            Some(o) => o == uv,
            None => false,
        };
        let files: u128 = found.cur.len() as u128 + found.new.len() as u128
            + found.unreadable as u128;
        if !known && files > 0 {
            let why = match old_uv {
                Some(o) => "UIDVALIDITY changed (".to_owned().concat(
                    text::to_decimal(o as u128).as_str(),
                ).concat(" -> ").concat(text::to_decimal(uv as u128).as_str()).concat(")"),
                None => "no .uidvalidity but ".to_owned().concat(
                    text::to_decimal(
                        if local.is_empty() {
                            files
                        } else {
                            local.len() as u128
                        },
                    ).as_str(),
                ).concat(" messages present"),
            };
            return Opening::Untouched(
                label.concat(": ").concat(why.as_str()).concat(
                    " - folder left untouched. Move ",
                ).concat(dir).concat(" aside to resume syncing it."),
            );
        }
        let s = FolderSync {
            label,
            dir: dir.to_owned(),
            uv,
            fresh: !known,
            exists: found.exists,
            expunge: acc.expunge,
            sync_flags: acc.sync_flags,
            hook: hooks.mail_received.clone(),
            local,
            remote: BTreeMap::new(),
            pending: Vec::new(),
            next: 0,
            asked: 0,
            removed: 0,
            orphans: 0,
            added: 0,
            missing: 0,
        };
        proof {
            assert(s@.remote =~= Map::empty());
            assert(s@.pending =~= Seq::empty());
        }
        Opening::Start(s)
    }

    /// The text to write to the state file before anything else happens: on the first contact
    /// with an epoch it is recorded, so an interrupted first sync resumes next time instead of
    /// looking like a foreign directory.
    pub fn state_to_write(&self) -> (r: Option<String>)
        ensures
            opt_text(r) == (if self@.fresh {
                Some(state_of(self@.uv))
            } else {
                None
            }),
    {
        if self.fresh {
            let mut t = text::to_decimal(self.uv as u128);
            t.push('\n');
            assert(t@ =~= state_of(self.uv));
            Some(t)
        } else {
            None
        }
    }

    /// Whether the UIDs and flags of all messages are to be fetched: not from a folder that
    /// claims to be empty.
    pub fn wants_flags(&self) -> (r: bool)
        ensures
            r == (self@.exists > 0),
    {
        self.exists > 0
    }
}

// ---------------------------------------------------------------------------
// Comparing with the server
// ---------------------------------------------------------------------------

/// What happens to the stored message `uid`. One that is gone from the server is removed only
/// where the account asks for it and the server enumerated something; one that is there gets
/// the name of its flags where flags are mirrored.
pub open spec fn change_for(v: SyncView, remote: Map<u32, Seq<char>>, uid: u32) -> Option<
    FileOpView,
> {
    let path = v.local[uid];
    if !remote.contains_key(uid) {
        if v.expunge && !remote.dom().is_empty() {
            Some(FileOpView::Remove { uid, path })
        } else {
            None
        }
    } else {
        let want = place(v.dir, v.uv, uid, remote[uid]);
        if v.sync_flags && path != want {
            Some(FileOpView::Rename { uid, from: path, to: want })
        } else {
            None
        }
    }
}

/// What the server has, as far as it was asked.
pub open spec fn remote_seen(v: SyncView, replies: Seq<FlagsReply>) -> Map<u32, Seq<char>> {
    if v.exists > 0 {
        reported(replies)
    } else {
        Map::empty()
    }
}

/// The messages are in the order of their UIDs, and are exactly those for which there is
/// something to do.
pub open spec fn are_changes(
    ops: Seq<FileOpView>,
    v: SyncView,
    remote: Map<u32, Seq<char>>,
) -> bool {
    &&& forall|i: int, j: int| 0 <= i < j < ops.len() ==> ops[i].uid() < ops[j].uid()
    &&& forall|o: FileOpView|
        ops.contains(o) <==> v.local.contains_key(o.uid()) && change_for(v, remote, o.uid())
            == Some(o)
}

/// The UIDs are in order, and are exactly those that the server has and the disk has not.
pub open spec fn are_missing(
    uids: Seq<u32>,
    local: Map<u32, Seq<char>>,
    remote: Map<u32, Seq<char>>,
) -> bool {
    &&& strictly_ascending(uids)
    &&& forall|u: u32|
        uids.contains(u) <==> remote.contains_key(u) && !local.contains_key(u)
}

/// A sync before and after the comparison with the server's answers, and the changes that come
/// out of it.
pub open spec fn is_comparison(
    v: SyncView,
    replies: Seq<FlagsReply>,
    after: SyncView,
    ops: Seq<FileOpView>,
) -> bool {
    let remote = remote_seen(v, replies);
    let gone = v.local.dom().difference(remote.dom());
    let trusted = v.expunge && !remote.dom().is_empty();
    &&& after == SyncView {
        remote,
        pending: after.pending,
        asked: 0,
        removed: if trusted {
            gone.len()
        } else {
            0
        },
        orphans: if trusted {
            0
        } else {
            gone.len()
        },
        missing: 0,
        ..v
    }
    &&& are_missing(after.pending, v.local, remote)
    &&& are_changes(ops, v, remote)
}

/// UID to info letters out of the answers.
fn collect(replies: &Vec<FlagsReply>) -> (r: BTreeMap<u32, String>)
    ensures
        maildir::texts(r@) == reported(replies@),
{
    let mut r: BTreeMap<u32, String> = BTreeMap::new();
    let mut i: usize = 0;
    proof {
        assert(replies@.take(0) =~= Seq::empty());
        assert(maildir::texts(r@) =~= Map::empty());
    }
    while i < replies.len()
        invariant
            i <= replies@.len(),
            maildir::texts(r@) == reported(replies@.take(i as int)),
        decreases replies@.len() - i,
    {
        proof {
            assert(replies@.take(i + 1).drop_last() =~= replies@.take(i as int));
            assert(replies@.take(i + 1).last() == replies@[i as int]);
        }
        let ghost before = r@;
        if let Some(uid) = replies[i].uid {
            let info = maildir::flags_of(replies[i].flags.as_slice());
            r.insert(uid, info);
            assert(maildir::texts(r@) =~= maildir::texts(before).insert(uid, info@));
        }
        i = i + 1;
    }
    proof {
        assert(replies@.take(i as int) =~= replies@);
    }
    r
}

/// The UIDs that the server has and the disk has not, in order.
fn missing_uids(local: &BTreeMap<u32, String>, remote: &BTreeMap<u32, String>) -> (r: Vec<u32>)
    ensures
        are_missing(r@, maildir::texts(local@), maildir::texts(remote@)),
{
    let keys = keys_of(remote);
    let mut r: Vec<u32> = Vec::new();
    let mut i: usize = 0;
    while i < keys.len()
        invariant
            i <= keys@.len(),
            strictly_ascending(keys@),
            forall|k: u32| keys@.contains(k) <==> remote@.contains_key(k),
            strictly_ascending(r@),
            forall|a: int| 0 <= a < r@.len() ==> i < keys@.len() ==> r@[a] < keys@[i as int],
            forall|u: u32|
                r@.contains(u) <==> keys@.take(i as int).contains(u) && !local@.contains_key(u),
        decreases keys@.len() - i,
    {
        let uid = keys[i];
        let ghost done = r@;
        let ghost seen = keys@.take(i as int);
        let ghost more = keys@.take(i + 1);
        proof {
            assert(more =~= seen.push(uid));
            lemma_push_contains(seen, uid);
        }
        if !local.contains_key(&uid) {
            r.push(uid);
            proof {
                lemma_push_contains(done, uid);
            }
        }
        i = i + 1;
    }
    proof {
        assert(keys@.take(i as int) =~= keys@);
        assert forall|u: u32|
            r@.contains(u) <==> maildir::texts(remote@).contains_key(u) && !maildir::texts(
                local@,
            ).contains_key(u) by {
            assert(keys@.contains(u) <==> remote@.contains_key(u));
        }
    }
    r
}

/// What a list holds after one more element.
proof fn lemma_push_contains<T>(s: Seq<T>, x: T)
    ensures
        forall|y: T| #[trigger] s.push(x).contains(y) <==> s.contains(y) || y == x,
{
    assert forall|y: T| #[trigger] s.push(x).contains(y) <==> s.contains(y) || y == x by {
        if s.contains(y) {
            let i = choose|i: int| 0 <= i < s.len() && s[i] == y;
            assert(s.push(x)[i] == y);
        }
        if y == x {
            assert(s.push(x)[s.len() as int] == y);
        }
    }
}

impl FolderSync {
    /// Takes in what the server has and says what to do with the stored messages. With an
    /// empty list of answers, or where the folder claims to be empty, nothing is removed: only
    /// trust "gone" when the server actually enumerated something; a bare `0 EXISTS` must not
    /// empty the archive.
    pub fn compare(&mut self, replies: &Vec<FlagsReply>) -> (r: Vec<FileOp>)
        ensures
            final(self).inv(),
            is_comparison(old(self)@, replies@, final(self)@, op_views(r@)),
    {
        let ghost v = self@;
        let remote = if self.exists > 0 {
            collect(replies)
        } else {
            BTreeMap::new()
        };
        let ghost there = maildir::texts(remote@);
        proof {
            if self.exists == 0 {
                assert(there =~= Map::empty());
            }
            assert(there.dom() =~= remote@.dom());
            assert(v.local.dom() =~= self.local@.dom());
        }
        let trusted = self.expunge && !remote.is_empty();
        let keys = keys_of(&self.local);
        let mut ops: Vec<FileOp> = Vec::new();
        let mut gone: usize = 0;
        let ghost mut absent: Set<u32> = Set::empty();
        let mut i: usize = 0;
        while i < keys.len()
            invariant
                i <= keys@.len(),
                *self == *old(self),
                v == self@,
                there == maildir::texts(remote@),
                there.dom() == remote@.dom(),
                v.local.dom() == self.local@.dom(),
                trusted == (v.expunge && !there.dom().is_empty()),
                strictly_ascending(keys@),
                forall|k: u32| keys@.contains(k) <==> self.local@.contains_key(k),
                gone <= i,
                absent.finite(),
                absent.len() == gone,
                forall|u: u32|
                    absent.contains(u) <==> keys@.take(i as int).contains(u)
                        && !there.contains_key(u),
                forall|a: int|
                    0 <= a < ops@.len() ==> i < keys@.len() ==> (#[trigger] op_views(ops@)[a]).uid()
                        < keys@[i as int],
                forall|a: int, b: int|
                    0 <= a < b < ops@.len() ==> (#[trigger] op_views(ops@)[a]).uid() < (
                    #[trigger] op_views(ops@)[b]).uid(),
                forall|o: FileOpView|
                    op_views(ops@).contains(o) <==> keys@.take(i as int).contains(o.uid())
                        && change_for(v, there, o.uid()) == Some(o),
            decreases keys@.len() - i,
        {
            let uid = keys[i];
            let ghost done = op_views(ops@);
            let ghost seen = keys@.take(i as int);
            let ghost before = absent;
            proof {
                assert(keys@.contains(uid));
                assert(keys@.take(i + 1) =~= seen.push(uid));
                lemma_push_contains(seen, uid);
                assert(!seen.contains(uid)) by {
                    if seen.contains(uid) {
                        let a = choose|a: int| 0 <= a < seen.len() && seen[a] == uid;
                        assert(keys@[a] == uid);
                    }
                }
            }
            if let Some(file) = self.local.get(&uid) {
                assert(v.local[uid] == file@);
                match remote.get(&uid) {
                    None => {
                        if trusted {
                            ops.push(FileOp::Remove { uid, path: file.clone() });
                            proof {
                                lemma_push_contains(
                                    done,
                                    FileOpView::Remove { uid, path: file@ },
                                );
                                assert(op_views(ops@) =~= done.push(
                                    FileOpView::Remove { uid, path: file@ },
                                ));
                            }
                        }
                        gone = gone + 1;
                        proof {
                            absent = absent.insert(uid);
                        }
                    },
                    Some(info) => {
                        assert(there[uid] == info@);
                        if self.sync_flags {
                            let want = place_of(self.dir.as_str(), self.uv, uid, info.as_str());
                            if !text::same(file.as_str(), want.as_str()) {
                                proof {
                                    lemma_push_contains(
                                        done,
                                        FileOpView::Rename { uid, from: file@, to: want@ },
                                    );
                                }
                                let ghost op = FileOpView::Rename {
                                    uid,
                                    from: file@,
                                    to: want@,
                                };
                                ops.push(FileOp::Rename { uid, from: file.clone(), to: want });
                                assert(op_views(ops@) =~= done.push(op));
                            }
                        }
                    },
                }
            }
            i = i + 1;
        }
        proof {
            assert(keys@.take(i as int) =~= keys@);
            assert(absent =~= v.local.dom().difference(there.dom())) by {
                assert forall|u: u32|
                    absent.contains(u) <==> v.local.dom().difference(there.dom()).contains(u) by {
                    assert(keys@.contains(u) <==> self.local@.contains_key(u));
                }
            }
            assert forall|o: FileOpView|
                op_views(ops@).contains(o) <==> v.local.contains_key(o.uid()) && change_for(
                    v,
                    there,
                    o.uid(),
                ) == Some(o) by {
                assert(keys@.contains(o.uid()) <==> self.local@.contains_key(o.uid()));
            }
        }
        let pending = missing_uids(&self.local, &remote);
        self.remote = remote;
        self.pending = pending;
        self.next = 0;
        self.asked = 0;
        self.missing = 0;
        if trusted {
            self.removed = gone;
            self.orphans = 0;
        } else {
            self.removed = 0;
            self.orphans = gone;
        }
        assert(self.pending@.skip(0) =~= self.pending@);
        ops
    }
}

// ---------------------------------------------------------------------------
// Fetching what is missing
// ---------------------------------------------------------------------------

/// How many of the pending messages the next batch takes.
pub open spec fn batch_len(pending: Seq<u32>) -> int {
    if pending.len() <= BATCH {
        pending.len() as int
    } else {
        BATCH as int
    }
}

/// A set of UIDs as a fetch command names it.
pub open spec fn uid_set(uids: Seq<u32>) -> Seq<char> {
    text::join(uids.map_values(|u: u32| text::decimal(u as nat)), ","@)
}

/// The set of UIDs that the next batch fetches; none once all have been asked for.
pub open spec fn batch_of(v: SyncView) -> Option<Seq<char>> {
    if v.pending.len() == 0 {
        None
    } else {
        Some(uid_set(v.pending.take(batch_len(v.pending))))
    }
}

/// A sync once the next batch has been asked for.
pub open spec fn batched(v: SyncView) -> SyncView {
    if v.pending.len() == 0 {
        v
    } else {
        SyncView {
            pending: v.pending.skip(batch_len(v.pending)),
            asked: batch_len(v.pending) as nat,
            ..v
        }
    }
}

/// The message to store for one answer: none where the UID or the content is absent. The
/// temporary name is without flags, so a retry after a flag change reuses the same file.
pub open spec fn delivery_for(v: SyncView, b: BodyReply) -> Option<DeliveryView> {
    match (b.uid, b.body) {
        (Some(uid), Some(data)) => {
            let dst = place(v.dir, v.uv, uid, maildir::info_of(b.flags@));
            Some(
                DeliveryView {
                    tmp: path::joined(
                        path::joined(v.dir, "tmp"@),
                        text::decimal(v.uv as nat) + "."@ + text::decimal(uid as nat),
                    ),
                    dst,
                    mtime: b.date,
                    data: data@,
                    hook: match v.hook {
                        Some(command) => Some(hook::command_for(command, dst)),
                        None => None,
                    },
                },
            )
        },
        _ => None,
    }
}

/// The messages to store for a batch of answers, in their order.
pub open spec fn deliveries(v: SyncView, replies: Seq<BodyReply>) -> Seq<DeliveryView> {
    replies.filter_map(|b: BodyReply| delivery_for(v, b))
}

/// How many of `asked` messages did not come.
pub open spec fn short_by(asked: nat, got: nat) -> nat {
    if got <= asked {
        (asked - got) as nat
    } else {
        0
    }
}

/// A sync once the messages of a batch are on their way.
pub open spec fn delivered(v: SyncView, replies: Seq<BodyReply>) -> SyncView {
    let got = deliveries(v, replies).len();
    SyncView {
        added: v.added + got,
        missing: v.missing + short_by(v.asked, got),
        asked: 0,
        ..v
    }
}

impl FolderSync {
    /// The next batch of UIDs to fetch with their content, as a set for the fetch command;
    /// nothing once all have been asked for.
    pub fn next_batch(&mut self) -> (r: Option<String>)
        requires
            old(self).inv(),
        ensures
            final(self).inv(),
            opt_text(r) == batch_of(old(self)@),
            final(self)@ == batched(old(self)@),
    {
        let ghost v = self@;
        let left: usize = self.pending.len() - self.next;
        if left == 0 {
            return None;
        }
        let n: usize = if left <= BATCH {
            left
        } else {
            BATCH
        };
        let start: usize = self.next;
        let mut parts: Vec<String> = Vec::new();
        let mut i: usize = 0;
        let ghost f = |u: u32| text::decimal(u as nat);
        let ghost taken = v.pending.take(n as int);
        while i < n
            invariant
                i <= n,
                *self == *old(self),
                v == self@,
                start == self.next,
                f == (|u: u32| text::decimal(u as nat)),
                taken == self.pending@.skip(start as int).take(n as int),
                start + n <= self.pending@.len(),
                self.pending@.len() <= usize::MAX,
                text::views(parts@) == taken.take(i as int).map_values(f),
            decreases n - i,
        {
            let ghost done = text::views(parts@);
            let uid = self.pending[start + i];
            parts.push(text::to_decimal(uid as u128));
            proof {
                assert(taken[i as int] == uid);
                assert(text::views(parts@) =~= done.push(text::decimal(uid as nat)));
                assert(taken.take(i + 1) =~= taken.take(i as int).push(uid));
                assert(taken.take(i + 1).map_values(f) =~= taken.take(i as int).map_values(f).push(
                    f(uid),
                ));
            }
            i = i + 1;
        }
        self.next = start + n;
        self.asked = n;
        proof {
            assert(taken.take(n as int) =~= taken);
            assert(self.pending@.skip(start + n) =~= v.pending.skip(n as int));
        }
        Some(text::join_with(&parts, ","))
    }

    /// How many messages have been stored.
    pub fn added(&self) -> (r: usize)
        ensures
            r == self@.added,
    {
        self.added
    }

    /// The message to store for one answer.
    fn delivery<'a>(&self, b: &BodyReply<'a>) -> (r: Option<Delivery<'a>>)
        ensures
            match r {
                Some(d) => delivery_for(self@, *b) == Some(d@),
                None => delivery_for(self@, *b) is None,
            },
    {
        match (b.uid, b.body) {
            (Some(uid), Some(data)) => {
                let info = maildir::flags_of(b.flags.as_slice());
                let dst = place_of(self.dir.as_str(), self.uv, uid, info.as_str());
                let id = text::to_decimal(self.uv as u128).concat(".").concat(
                    text::to_decimal(uid as u128).as_str(),
                );
                let tmp = path::join(path::join(self.dir.as_str(), "tmp").as_str(), id.as_str());
                let command = match &self.hook {
                    Some(c) => Some(hook::mail_received(c.as_str(), dst.as_str())),
                    None => None,
                };
                Some(Delivery { tmp, dst, mtime: b.date, data, hook: command })
            },
            _ => None,
        }
    }

    /// Takes in the answers to a batch and says which messages to store, and where.
    pub fn deliver<'a>(&mut self, replies: &Vec<BodyReply<'a>>) -> (r: Vec<Delivery<'a>>)
        requires
            old(self).inv(),
            old(self)@.added + replies@.len() <= usize::MAX,
        ensures
            final(self).inv(),
            delivery_views(r@) == deliveries(old(self)@, replies@),
            final(self)@ == delivered(old(self)@, replies@),
    {
        let ghost v = self@;
        let ghost f = |b: BodyReply| delivery_for(v, b);
        let mut r: Vec<Delivery<'a>> = Vec::new();
        let mut i: usize = 0;
        proof {
            assert(replies@.take(0) =~= Seq::empty());
            assert(delivery_views(r@) =~= replies@.take(0).filter_map(f));
        }
        while i < replies.len()
            invariant
                i <= replies@.len(),
                *self == *old(self),
                v == self@,
                f == (|b: BodyReply| delivery_for(v, b)),
                r@.len() <= i,
                delivery_views(r@) == replies@.take(i as int).filter_map(f),
            decreases replies@.len() - i,
        {
            let ghost done = delivery_views(r@);
            proof {
                replies@.lemma_filter_map_take_succ(f, i as int);
            }
            if let Some(d) = self.delivery(&replies[i]) {
                r.push(d);
                assert(delivery_views(r@) =~= done.push(d@));
            }
            i = i + 1;
            assert(delivery_views(r@) =~= replies@.take(i as int).filter_map(f));
        }
        proof {
            assert(replies@.take(i as int) =~= replies@);
        }
        let got: usize = r.len();
        self.added = self.added + got;
        if got <= self.asked {
            self.missing = self.missing + (self.asked - got);
        }
        self.asked = 0;
        r
    }
}

// ---------------------------------------------------------------------------
// Reporting
// ---------------------------------------------------------------------------

/// What is said of a sync when it is done.
pub open spec fn report_of(v: SyncView) -> Seq<Seq<char>> {
    let retry = if v.missing > 0 {
        seq![
            v.label + ": "@ + text::decimal(v.missing)
                + " message(s) returned without a body, will retry"@,
        ]
    } else {
        Seq::empty()
    };
    let kept = if v.orphans > 0 {
        " ~"@ + text::decimal(v.orphans) + " kept"@
    } else {
        Seq::empty()
    };
    let total = if v.added + v.removed > 0 || v.fresh {
        seq![
            v.label + ": +"@ + text::decimal(v.added) + " -"@ + text::decimal(v.removed) + kept
                + " (total "@ + text::decimal(v.remote.dom().len()) + ")"@,
        ]
    } else {
        Seq::empty()
    };
    retry + total
}

impl FolderSync {
    /// What to say of the sync when it is done.
    pub fn report(&self) -> (r: Vec<String>)
        ensures
            text::views(r@) == report_of(self@),
    {
        let mut r: Vec<String> = Vec::new();
        if self.missing > 0 {
            r.push(
                self.label.clone().concat(": ").concat(
                    text::to_decimal(self.missing as u128).as_str(),
                ).concat(" message(s) returned without a body, will retry"),
            );
        }
        if self.added > 0 || self.removed > 0 || self.fresh {
            let kept = if self.orphans > 0 {
                " ~".to_owned().concat(text::to_decimal(self.orphans as u128).as_str()).concat(
                    " kept",
                )
            } else {
                String::new()
            };
            assert(self@.remote.dom() =~= self.remote@.dom());
            r.push(
                self.label.clone().concat(": +").concat(
                    text::to_decimal(self.added as u128).as_str(),
                ).concat(" -").concat(text::to_decimal(self.removed as u128).as_str()).concat(
                    kept.as_str(),
                ).concat(" (total ").concat(
                    text::to_decimal(self.remote.len() as u128).as_str(),
                ).concat(")"),
            );
        }
        assert(text::views(r@) =~= report_of(self@));
        r
    }
}

// ---------------------------------------------------------------------------
// What these functions mean
// ---------------------------------------------------------------------------

/// The models of changes and deliveries show everything in them.
pub proof fn law_models_show_changes_and_deliveries(
    ops: Seq<FileOp>,
    mail: Seq<Delivery>,
    uid: u32,
    a: String,
    b: String,
)
    ensures
        op_views(ops).len() == ops.len(),
        forall|i: int| 0 <= i < ops.len() ==> #[trigger] op_views(ops)[i] == ops[i]@,
        (FileOp::Remove { uid, path: a })@ == (FileOpView::Remove { uid, path: a@ }),
        (FileOp::Rename { uid, from: a, to: b })@ == (FileOpView::Rename {
            uid,
            from: a@,
            to: b@,
        }),
        delivery_views(mail).len() == mail.len(),
        forall|i: int| 0 <= i < mail.len() ==> #[trigger] delivery_views(mail)[i] == mail[i]@,
        forall|i: int|
            0 <= i < mail.len() ==> {
                let d = #[trigger] mail[i];
                &&& d@.tmp == d.tmp@
                &&& d@.dst == d.dst@
                &&& d@.mtime == d.mtime
                &&& d@.data == d.data@
                &&& d.hook is Some ==> d@.hook == Some(d.hook->0@)
                &&& d.hook is None ==> d@.hook is None
            },
        opt_text(Some(a)) == Some(a@),
        opt_text(None) is None,
{
}

/// The server's messages are exactly those that answered with a UID, whatever their flags are.
pub proof fn law_every_answer_counts(replies: Seq<FlagsReply>, uid: u32)
    ensures
        reported(replies).contains_key(uid) <==> exists|i: int|
            0 <= i < replies.len() && (#[trigger] replies[i]).uid == Some(uid),
    decreases replies.len(),
{
    if replies.len() > 0 {
        let front = replies.drop_last();
        let n = replies.len() - 1;
        law_every_answer_counts(front, uid);
        if exists|i: int| 0 <= i < front.len() && (#[trigger] front[i]).uid == Some(uid) {
            let i = choose|i: int| 0 <= i < front.len() && (#[trigger] front[i]).uid == Some(uid);
            assert(replies[i].uid == Some(uid));
        }
        if exists|i: int| 0 <= i < replies.len() && (#[trigger] replies[i]).uid == Some(uid) {
            let i = choose|i: int|
                0 <= i < replies.len() && (#[trigger] replies[i]).uid == Some(uid);
            if i < n {
                assert(front[i].uid == Some(uid));
            }
        }
        assert(replies[n] == replies.last());
    }
}

/// Of several answers for a message the last one tells its flags.
pub proof fn law_last_answer_tells_the_flags(replies: Seq<FlagsReply>, uid: u32, i: int)
    requires
        0 <= i < replies.len(),
        replies[i].uid == Some(uid),
        forall|j: int| i < j < replies.len() ==> (#[trigger] replies[j]).uid != Some(uid),
    ensures
        reported(replies).contains_key(uid),
        reported(replies)[uid] == maildir::info_of(replies[i].flags@),
    decreases replies.len(),
{
    let front = replies.drop_last();
    let n = replies.len() - 1;
    if i < n {
        assert(replies[n].uid != Some(uid));
        assert forall|j: int| i < j < front.len() implies (#[trigger] front[j]).uid != Some(uid) by {
            assert(front[j] == replies[j]);
        }
        law_last_answer_tells_the_flags(front, uid, i);
    }
}

/// A message lies in `cur` or `new` as its flags say, under a name with epoch, UID and flags.
pub proof fn law_place_of_a_message(dir: Seq<char>, uv: u32, uid: u32, info: Seq<char>)
    ensures
        info.contains('S') ==> place(dir, uv, uid, info) == path::joined(
            path::joined(dir, "cur"@),
            maildir::name_of(uv, uid, info),
        ),
        !info.contains('S') ==> place(dir, uv, uid, info) == path::joined(
            path::joined(dir, "new"@),
            maildir::name_of(uv, uid, info),
        ),
{
}

/// What a comparison leaves as it is, and how it counts: every stored message that no answer
/// named is either removed or kept.
pub proof fn law_comparison_keeps_the_rest(
    v: SyncView,
    replies: Seq<FlagsReply>,
    after: SyncView,
    ops: Seq<FileOpView>,
)
    requires
        is_comparison(v, replies, after, ops),
    ensures
        after.label == v.label && after.dir == v.dir && after.uv == v.uv,
        after.fresh == v.fresh && after.exists == v.exists && after.hook == v.hook,
        after.expunge == v.expunge && after.sync_flags == v.sync_flags,
        after.local == v.local && after.added == v.added,
        after.asked == 0 && after.missing == 0,
        after.exists == 0 ==> after.remote == Map::<u32, Seq<char>>::empty(),
        after.exists > 0 ==> after.remote == reported(replies),
        v.expunge && !after.remote.dom().is_empty() ==> after.orphans == 0 && after.removed
            == v.local.dom().difference(after.remote.dom()).len(),
        !(v.expunge && !after.remote.dom().is_empty()) ==> after.removed == 0 && after.orphans
            == v.local.dom().difference(after.remote.dom()).len(),
{
}

/// What is to be fetched: each message that answered and is not stored, once, in the order of
/// the UIDs.
pub proof fn law_pending_is_what_is_missing(
    v: SyncView,
    replies: Seq<FlagsReply>,
    after: SyncView,
    ops: Seq<FileOpView>,
    uid: u32,
)
    requires
        is_comparison(v, replies, after, ops),
    ensures
        after.pending.contains(uid) <==> v.exists > 0 && !v.local.contains_key(uid) && exists|
            i: int,
        |
            0 <= i < replies.len() && (#[trigger] replies[i]).uid == Some(uid),
        forall|i: int, j: int|
            0 <= i < j < after.pending.len() ==> after.pending[i] < after.pending[j],
{
    law_every_answer_counts(replies, uid);
}

/// A stored message is removed if and only if the account wants that, the server answered for
/// some message, and for this one it did not; the file that goes is that of the message.
pub proof fn law_what_is_removed(
    v: SyncView,
    replies: Seq<FlagsReply>,
    after: SyncView,
    ops: Seq<FileOpView>,
    uid: u32,
    path: Seq<char>,
)
    requires
        is_comparison(v, replies, after, ops),
    ensures
        ops.contains(FileOpView::Remove { uid, path }) <==> {
            &&& v.local.contains_key(uid)
            &&& v.local[uid] == path
            &&& v.expunge
            &&& v.exists > 0
            &&& exists|i: int| 0 <= i < replies.len() && (#[trigger] replies[i]).uid is Some
            &&& forall|i: int| 0 <= i < replies.len() ==> (#[trigger] replies[i]).uid != Some(uid)
        },
{
    let remote = after.remote;
    law_every_answer_counts(replies, uid);
    if exists|i: int| 0 <= i < replies.len() && (#[trigger] replies[i]).uid is Some {
        let i = choose|i: int| 0 <= i < replies.len() && (#[trigger] replies[i]).uid is Some;
        law_every_answer_counts(replies, replies[i].uid->0);
        assert(reported(replies).dom().contains(replies[i].uid->0));
    }
    if v.exists > 0 && !remote.dom().is_empty() {
        let u = choose|u: u32| remote.dom().contains(u);
        assert(exists|u: u32| remote.dom().contains(u)) by {
            if forall|u: u32| !remote.dom().contains(u) {
                assert(remote.dom() =~= Set::empty());
            }
        }
        law_every_answer_counts(replies, u);
        let i = choose|i: int| 0 <= i < replies.len() && (#[trigger] replies[i]).uid == Some(u);
        assert(replies[i].uid is Some);
    }
    let o = FileOpView::Remove { uid, path };
    assert(o.uid() == uid);
    assert(v.exists == 0 ==> remote.dom() =~= Set::empty());
}

/// A stored message is renamed if and only if flags are mirrored, the server answered for it,
/// and it does not lie where its flags say; it then goes from where it is to there.
pub proof fn law_what_is_renamed(
    v: SyncView,
    replies: Seq<FlagsReply>,
    after: SyncView,
    ops: Seq<FileOpView>,
    uid: u32,
    from: Seq<char>,
    to: Seq<char>,
)
    requires
        is_comparison(v, replies, after, ops),
    ensures
        ops.contains(FileOpView::Rename { uid, from, to }) <==> {
            &&& v.local.contains_key(uid)
            &&& v.local[uid] == from
            &&& v.sync_flags
            &&& v.exists > 0
            &&& exists|i: int| 0 <= i < replies.len() && (#[trigger] replies[i]).uid == Some(uid)
            &&& to == place(v.dir, v.uv, uid, reported(replies)[uid])
            &&& from != to
        },
{
    law_every_answer_counts(replies, uid);
    let o = FileOpView::Rename { uid, from, to };
    assert(o.uid() == uid);
}

/// Every message is changed at most once.
pub proof fn law_one_change_per_message(
    v: SyncView,
    replies: Seq<FlagsReply>,
    after: SyncView,
    ops: Seq<FileOpView>,
    i: int,
    j: int,
)
    requires
        is_comparison(v, replies, after, ops),
        0 <= i < j < ops.len(),
    ensures
        match (ops[i], ops[j]) {
            (FileOpView::Remove { uid: a, .. }, FileOpView::Remove { uid: b, .. }) => a < b,
            (FileOpView::Remove { uid: a, .. }, FileOpView::Rename { uid: b, .. }) => a < b,
            (FileOpView::Rename { uid: a, .. }, FileOpView::Remove { uid: b, .. }) => a < b,
            (FileOpView::Rename { uid: a, .. }, FileOpView::Rename { uid: b, .. }) => a < b,
        },
{
    assert(ops[i].uid() < ops[j].uid());
}

/// A batch takes the next 25 pending messages, or all if there are fewer, and leaves the rest
/// for later; nothing else changes.
pub proof fn law_batch_takes_the_next_messages(v: SyncView, n: int)
    requires
        v.pending.len() >= 25 ==> n == 25,
        v.pending.len() < 25 ==> n == v.pending.len(),
    ensures
        v.pending.len() == 0 ==> batch_of(v) is None && batched(v) == v,
        v.pending.len() > 0 ==> {
            &&& batch_of(v) == Some(uid_set(v.pending.take(n)))
            &&& batched(v) == (SyncView { pending: v.pending.skip(n), asked: n as nat, ..v })
        },
{
}

/// A set of UIDs names each of them, in order, in decimal and between commas.
pub proof fn law_uid_set_names_every_uid(uids: Seq<u32>)
    requires
        uids.len() > 0,
    ensures
        text::split(uid_set(uids), ","@).len() == uids.len(),
        forall|i: int|
            0 <= i < uids.len() ==> #[trigger] text::split(uid_set(uids), ","@)[i]
                == text::decimal(uids[i] as nat),
    decreases uids.len(),
{
    reveal_strlit(",");
    let comma = ","@;
    assert(comma =~= seq![',']);
    let f = |u: u32| text::decimal(u as nat);
    let parts = uids.map_values(f);
    let first = text::decimal(uids[0] as nat);
    text::law_decimal_reads_back(uids[0] as nat);
    assert(parts[0] == first);
    if uids.len() == 1 {
        assert(parts.len() == 1);
        assert(uid_set(uids) == first);
        assert(!first.contains(',')) by {
            if first.contains(',') {
                let i = choose|i: int| 0 <= i < first.len() && first[i] == ',';
                assert(text::is_digit(first[i]));
            }
        }
        text::lemma_split_absent(first, ',');
    } else {
        let rest = uids.skip(1);
        law_uid_set_names_every_uid(rest);
        assert(parts.skip(1) =~= rest.map_values(f));
        let tail = uid_set(rest);
        assert(uid_set(uids) == first + comma + tail);
        assert forall|j: int| 0 <= j < first.len() implies #[trigger] (first + comma
            + tail).subrange(j, j + comma.len()) != comma by {
            assert((first + comma + tail).subrange(j, j + comma.len())[0] == first[j]);
            assert(text::is_digit(first[j]));
        }
        text::law_split_at_the_leftmost(first, comma, tail);
        let all = text::split(uid_set(uids), comma);
        assert(all == seq![first] + text::split(tail, comma));
        assert forall|i: int| 0 <= i < uids.len() implies #[trigger] all[i] == text::decimal(
            uids[i] as nat,
        ) by {
            if i > 0 {
                assert(all[i] == text::split(tail, comma)[i - 1]);
                assert(rest[i - 1] == uids[i]);
            }
        }
    }
}

/// What is stored for an answer: nothing without a UID or content, and otherwise the content as
/// it came, under the place of its flags, with the server's date and the hook for that place.
pub proof fn law_what_is_stored(v: SyncView, b: BodyReply)
    ensures
        b.uid is None || b.body is None ==> delivery_for(v, b) is None,
        b.uid is Some && b.body is Some ==> {
            let d = delivery_for(v, b)->0;
            &&& delivery_for(v, b) is Some
            &&& d.tmp == path::joined(
                path::joined(v.dir, "tmp"@),
                text::decimal(v.uv as nat) + "."@ + text::decimal(b.uid->0 as nat),
            )
            &&& d.dst == place(v.dir, v.uv, b.uid->0, maildir::info_of(b.flags@))
            &&& d.mtime == b.date
            &&& d.data == b.body->0@
            &&& v.hook is Some ==> d.hook == Some(hook::command_for(v.hook->0, d.dst))
            &&& v.hook is None ==> d.hook is None
        },
{
}

/// Filtering goes piece by piece over a concatenation.
pub proof fn lemma_filter_map_concat<A, B>(a: Seq<A>, b: Seq<A>, f: spec_fn(A) -> Option<B>)
    ensures
        (a + b).filter_map(f) == a.filter_map(f) + b.filter_map(f),
    decreases b.len(),
{
    if b.len() == 0 {
        assert(a + b =~= a);
        assert(b.filter_map(f) =~= Seq::empty());
        assert(a.filter_map(f) + b.filter_map(f) =~= a.filter_map(f));
    } else {
        let n = b.len() - 1;
        let whole = a + b;
        let m = whole.len() - 1;
        lemma_filter_map_concat(a, b.drop_last(), f);
        b.lemma_filter_map_take_succ(f, n as int);
        whole.lemma_filter_map_take_succ(f, m as int);
        assert(b.take(n + 1) =~= b);
        assert(b.take(n as int) =~= b.drop_last());
        assert(whole.take(m + 1) =~= whole);
        assert(whole.take(m as int) =~= a + b.drop_last());
        assert(whole[m as int] == b[n as int]);
        assert(whole.filter_map(f) =~= a.filter_map(f) + b.filter_map(f));
    }
}

/// No answer of a batch is left out, and none is stored twice: the deliveries of two lists of
/// answers are those of the first and then those of the second, and for one answer there is
/// one, or none where nothing is to be stored.
pub proof fn law_every_answer_is_stored(v: SyncView, a: Seq<BodyReply>, b: Seq<BodyReply>, x: BodyReply)
    ensures
        deliveries(v, a + b) == deliveries(v, a) + deliveries(v, b),
        deliveries(v, Seq::empty()) == Seq::<DeliveryView>::empty(),
        x.uid is Some && x.body is Some ==> deliveries(v, seq![x]) == seq![
            delivery_for(v, x)->0,
        ],
        x.uid is None || x.body is None ==> deliveries(v, seq![x]) == Seq::<DeliveryView>::empty(),
{
    let f = |r: BodyReply| delivery_for(v, r);
    lemma_filter_map_concat(a, b, f);
    assert(Seq::<BodyReply>::empty().filter_map(f) =~= Seq::empty());
    seq![x].lemma_filter_map_take_succ(f, 0);
    assert(seq![x].take(1) =~= seq![x]);
    assert(seq![x].take(0) =~= Seq::empty());
    match delivery_for(v, x) {
        Some(d) => {
            assert(deliveries(v, seq![x]) =~= seq![d]);
        },
        None => {
            assert(deliveries(v, seq![x]) =~= Seq::empty());
        },
    }
}

/// How a batch is counted: what is stored was added, and what was asked for and did not come is
/// missing; nothing else changes.
pub proof fn law_batch_is_counted(v: SyncView, replies: Seq<BodyReply>, got: nat)
    requires
        got == deliveries(v, replies).len(),
    ensures
        delivered(v, replies).added == v.added + got,
        got <= v.asked ==> delivered(v, replies).missing == v.missing + (v.asked - got),
        got > v.asked ==> delivered(v, replies).missing == v.missing,
        delivered(v, replies) == (SyncView {
            added: delivered(v, replies).added,
            missing: delivered(v, replies).missing,
            asked: 0,
            ..v
        }),
{
}

/// What is reported: messages that did not come, and the numbers if there is anything to tell.
pub proof fn law_what_is_reported(v: SyncView)
    ensures
        ({
            let r = report_of(v);
            let counts = v.label + ": +"@ + text::decimal(v.added) + " -"@ + text::decimal(
                v.removed,
            );
            let total = " (total "@ + text::decimal(v.remote.dom().len()) + ")"@;
            let tells = v.added > 0 || v.removed > 0 || v.fresh;
            &&& r.len() == (if v.missing > 0 {
                1int
            } else {
                0
            }) + (if tells {
                1int
            } else {
                0
            })
            &&& v.missing > 0 ==> r[0] == v.label + ": "@ + text::decimal(v.missing)
                + " message(s) returned without a body, will retry"@
            &&& tells && v.orphans == 0 ==> r.last() == counts + total
            &&& tells && v.orphans > 0 ==> r.last() == counts + (" ~"@ + text::decimal(v.orphans)
                + " kept"@) + total
        }),
{
    let counts = v.label + ": +"@ + text::decimal(v.added) + " -"@ + text::decimal(v.removed);
    let total = " (total "@ + text::decimal(v.remote.dom().len()) + ")"@;
    if v.added > 0 || v.removed > 0 || v.fresh {
        if v.orphans == 0 {
            assert(report_of(v).last() =~= counts + total);
        } else {
            assert(report_of(v).last() =~= counts + (" ~"@ + text::decimal(v.orphans) + " kept"@)
                + total);
        }
    }
}

/// A sync begins with what the account and the hooks ask for and with what was found, whatever
/// the state file tells.
pub proof fn law_sync_begins_as_configured(
    acc: Account,
    hooks: Hooks,
    name: Seq<char>,
    dir: Seq<char>,
    found: Opened,
)
    ensures
        ({
            let s = opened(acc, hooks, name, dir, found);
            &&& s.label == acc.name@ + "/"@ + name
            &&& s.dir == dir
            &&& s.uv == found.uid_validity
            &&& s.exists == found.exists
            &&& s.expunge == acc.expunge
            &&& s.sync_flags == acc.sync_flags
            &&& hooks.mail_received is Some ==> s.hook == Some(hooks.mail_received->0@)
            &&& hooks.mail_received is None ==> s.hook is None
            &&& s.local == maildir::stored(
                dir,
                text::views(found.cur@),
                text::views(found.new@),
            )
            &&& s.fresh <==> found.state is None || recorded(found.state->0@) != Some(
                found.uid_validity,
            )
            &&& s.added == 0 && s.removed == 0 && s.orphans == 0 && s.missing == 0 && s.asked == 0
            &&& s.pending.len() == 0
        }),
{
}

/// The epoch is the number on the first line of the state file; white space around it and what
/// follows the line do not matter.
pub proof fn law_epoch_stands_on_the_first_line(line: Seq<char>, rest: Seq<char>)
    requires
        !line.contains('\n'),
    ensures
        recorded(line) == text::parsed_u32(text::trimmed(line)),
        recorded(line + seq!['\n'] + rest) == text::parsed_u32(text::trimmed(line)),
{
    let lf = seq!['\n'];
    text::lemma_split_absent(line, '\n');
    assert forall|j: int| 0 <= j < line.len() implies #[trigger] (line + lf + rest).subrange(
        j,
        j + lf.len(),
    ) != lf by {
        assert((line + lf + rest).subrange(j, j + lf.len())[0] == line[j]);
        assert(line.contains(line[j]));
    }
    text::law_split_at_the_leftmost(line, lf, rest);
}

/// What is written for an epoch, and what is said where a folder is left untouched: both epochs
/// where the state file tells one, and otherwise how many messages are there - those with a UID,
/// or all files where no name holds one.
pub proof fn law_words_for_an_epoch(
    acc: Account,
    name: Seq<char>,
    dir: Seq<char>,
    found: Opened,
    n: nat,
)
    requires
        found.local(dir).dom().is_empty() ==> n == found.cur@.len() + found.new@.len()
            + found.unreadable,
        !found.local(dir).dom().is_empty() ==> n == found.local(dir).dom().len(),
    ensures
        forall|uv: u32| #[trigger] state_of(uv) == text::decimal(uv as nat) + seq!['\n'],
        ({
            let uv = found.uid_validity;
            let front = acc.name@ + "/"@ + name + ": "@;
            let back = " - folder left untouched. Move "@ + dir + " aside to resume syncing it."@;
            let said = untouched_words(acc, name, dir, found);
            &&& found.epoch() is Some ==> said == front + ("UIDVALIDITY changed ("@
                + text::decimal(found.epoch()->0 as nat) + " -> "@ + text::decimal(uv as nat)
                + ")"@) + back
            &&& found.epoch() is None ==> said == front + ("no .uidvalidity but "@
                + text::decimal(n) + " messages present"@) + back
        }),
{
    let uv = found.uid_validity;
    let front = acc.name@ + "/"@ + name + ": "@;
    let back = " - folder left untouched. Move "@ + dir + " aside to resume syncing it."@;
    let said = untouched_words(acc, name, dir, found);
    assert(n == found.messages(dir));
    if found.epoch() is Some {
        assert(said =~= front + ("UIDVALIDITY changed ("@ + text::decimal(
            found.epoch()->0 as nat,
        ) + " -> "@ + text::decimal(uv as nat) + ")"@) + back);
    } else {
        assert(said =~= front + ("no .uidvalidity but "@ + text::decimal(n)
            + " messages present"@) + back);
    }
}

/// Where the epoch and the stored messages of a found folder come from.
pub proof fn law_what_was_found(found: Opened, dir: Seq<char>)
    ensures
        found.state is None ==> found.epoch() is None,
        found.state is Some ==> found.epoch() == recorded(found.state->0@),
        found.local(dir) == maildir::stored(dir, text::views(found.cur@), text::views(found.new@)),
        found.accepted() <==> found.epoch() == Some(found.uid_validity) || (found.cur@.len() == 0
            && found.new@.len() == 0 && found.unreadable == 0),
{
}

} // verus!

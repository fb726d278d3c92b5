//! Writes that survive a power cut: the order of the file system steps, and why it holds.

use crate::path;
use vstd::prelude::*;

verus! {

/// One step on the file system.
#[derive(Debug)]
pub enum Step {
    /// Create the file, or empty it if it is there.
    Create { path: String },
    /// Write the whole content to the file.
    Write { path: String },
    /// Set the access and modification time of the file to a unix timestamp.
    SetTimes { path: String, secs: i64 },
    /// Bring the content of the file to stable storage.
    SyncFile { path: String },
    /// Give the file another name, which takes the place of a file of that name.
    Rename { from: String, to: String },
    /// Bring the entries of a directory to stable storage.
    SyncDir { dir: String },
}

/// A [`Step`] over models.
pub enum StepView {
    Create { path: Seq<char> },
    Write { path: Seq<char> },
    SetTimes { path: Seq<char>, secs: i64 },
    SyncFile { path: Seq<char> },
    Rename { from: Seq<char>, to: Seq<char> },
    SyncDir { dir: Seq<char> },
}

impl View for Step {
    type V = StepView;

    open spec fn view(&self) -> StepView {
        match *self {
            Step::Create { path } => StepView::Create { path: path@ },
            Step::Write { path } => StepView::Write { path: path@ },
            Step::SetTimes { path, secs } => StepView::SetTimes { path: path@, secs },
            Step::SyncFile { path } => StepView::SyncFile { path: path@ },
            Step::Rename { from, to } => StepView::Rename { from: from@, to: to@ },
            Step::SyncDir { dir } => StepView::SyncDir { dir: dir@ },
        }
    }
}

/// The views of a list of steps.
pub open spec fn step_views(v: Seq<Step>) -> Seq<StepView> {
    v.map_values(|s: Step| s@)
}

// ---------------------------------------------------------------------------
// The disk
// ---------------------------------------------------------------------------

/// A file: its content, its date if one was set, and whether both are on stable storage.
pub struct File {
    pub data: Seq<u8>,
    pub date: Option<i64>,
    pub synced: bool,
}

/// The files by name: as the running system sees them, and as the directories on stable
/// storage name them.
pub struct Disk {
    pub live: Map<Seq<char>, File>,
    pub stable: Map<Seq<char>, File>,
}

/// The file under `name`, if there is one.
pub open spec fn entry(m: Map<Seq<char>, File>, name: Seq<char>) -> Option<File> {
    if m.contains_key(name) {
        Some(m[name])
    } else {
        None
    }
}

/// The disk after one step, where the content to write is `data`.
pub open spec fn after_step(d: Disk, step: StepView, data: Seq<u8>) -> Disk {
    match step {
        StepView::Create { path } => Disk {
            live: d.live.insert(path, File { data: Seq::empty(), date: None, synced: false }),
            ..d
        },
        StepView::Write { path } => Disk {
            live: d.live.insert(path, File { data, synced: false, ..d.live[path] }),
            ..d
        },
        StepView::SetTimes { path, secs } => Disk {
            live: d.live.insert(path, File { date: Some(secs), synced: false, ..d.live[path] }),
            ..d
        },
        StepView::SyncFile { path } => Disk {
            live: d.live.insert(path, File { synced: true, ..d.live[path] }),
            ..d
        },
        StepView::Rename { from, to } => Disk {
            live: d.live.remove(from).insert(to, d.live[from]),
            ..d
        },
        StepView::SyncDir { dir } => Disk {
            stable: Map::new(
                |p: Seq<char>|
                    if path::parent_of(p) == dir {
                        d.live.contains_key(p)
                    } else {
                        d.stable.contains_key(p)
                    },
                |p: Seq<char>|
                    if path::parent_of(p) == dir {
                        d.live[p]
                    } else {
                        d.stable[p]
                    },
            ),
            ..d
        },
    }
}

/// The disk after some steps in order.
pub open spec fn after_steps(d: Disk, steps: Seq<StepView>, data: Seq<u8>) -> Disk
    decreases steps.len(),
{
    if steps.len() == 0 {
        d
    } else {
        after_step(after_steps(d, steps.drop_last(), data), steps.last(), data)
    }
}

/// What a power cut may make of one directory entry: no file, or a file with its content. A
/// file that is not on stable storage may come back with any content, none at all among them.
pub open spec fn entry_may_become(
    m: Map<Seq<char>, File>,
    name: Seq<char>,
    found: Option<(Seq<u8>, Option<i64>)>,
) -> bool {
    if m.contains_key(name) {
        &&& found is Some
        &&& m[name].synced ==> found == Some((m[name].data, m[name].date))
    } else {
        found is None
    }
}

/// What may be found under `name` after a power cut: the entry as it was on stable storage, or
/// as the running system saw it.
pub open spec fn may_find(
    d: Disk,
    name: Seq<char>,
    found: Option<(Seq<u8>, Option<i64>)>,
) -> bool {
    entry_may_become(d.live, name, found) || entry_may_become(d.stable, name, found)
}

// ---------------------------------------------------------------------------
// Operations
// ---------------------------------------------------------------------------

/// The steps of a durable write.
pub open spec fn write_steps(
    tmp: Seq<char>,
    dst: Seq<char>,
    mtime: Option<i64>,
) -> Seq<StepView> {
    let date = match mtime {
        Some(secs) => seq![StepView::SetTimes { path: tmp, secs }],
        None => Seq::empty(),
    };
    seq![StepView::Create { path: tmp }, StepView::Write { path: tmp }] + date + seq![
        StepView::SyncFile { path: tmp },
        StepView::Rename { from: tmp, to: dst },
        StepView::SyncDir { dir: path::parent_of(dst) },
    ]
}

/// The steps of a durable rename.
pub open spec fn rename_steps(from: Seq<char>, to: Seq<char>) -> Seq<StepView> {
    seq![StepView::Rename { from, to }, StepView::SyncDir { dir: path::parent_of(to) }]
}

/// Write the content to `tmp` and move it to `dst` so that the name only ever becomes visible
/// once the content is on stable storage: fsync the file before the rename, fsync the
/// containing directory after it. Without this a power cut leaves correctly named but empty
/// files, and since the UID is part of the name they would never be fetched again.
///
/// `mtime` (a unix timestamp) is applied before the fsync, so the published file already
/// carries the message's own date.
pub fn write_durable(tmp: &str, dst: &str, mtime: Option<i64>) -> (r: Vec<Step>)
    ensures
        step_views(r@) == write_steps(tmp@, dst@, mtime),
{
    let mut r: Vec<Step> = Vec::new();
    r.push(Step::Create { path: tmp.to_owned() });
    r.push(Step::Write { path: tmp.to_owned() });
    if let Some(secs) = mtime {
        r.push(Step::SetTimes { path: tmp.to_owned(), secs });
    }
    r.push(Step::SyncFile { path: tmp.to_owned() });
    r.push(Step::Rename { from: tmp.to_owned(), to: dst.to_owned() });
    r.push(Step::SyncDir { dir: path::parent(dst) });
    proof {
        assert(step_views(r@) =~= write_steps(tmp@, dst@, mtime));
    }
    r
}

/// Rename within the Maildir (a flag change), durably.
pub fn rename_durable(from: &str, to: &str) -> (r: Vec<Step>)
    ensures
        step_views(r@) == rename_steps(from@, to@),
{
    let mut r: Vec<Step> = Vec::new();
    r.push(Step::Rename { from: from.to_owned(), to: to.to_owned() });
    r.push(Step::SyncDir { dir: path::parent(to) });
    proof {
        assert(step_views(r@) =~= rename_steps(from@, to@));
    }
    r
}

// ---------------------------------------------------------------------------
// Laws
// ---------------------------------------------------------------------------

/// One more step of a list.
proof fn lemma_steps_take(d: Disk, steps: Seq<StepView>, data: Seq<u8>, k: int)
    requires
        0 <= k < steps.len(),
    ensures
        after_steps(d, steps.take(k + 1), data) == after_step(
            after_steps(d, steps.take(k), data),
            steps[k],
            data,
        ),
{
    assert(steps.take(k + 1).drop_last() =~= steps.take(k));
    assert(steps.take(k + 1).last() == steps[k]);
}

/// The file that a durable write makes.
pub open spec fn complete(data: Seq<u8>, mtime: Option<i64>) -> File {
    File { data, date: mtime, synced: true }
}

/// How the disk looks after each prefix of a durable write, as far as `dst` is concerned.
proof fn lemma_write_prefix(
    d: Disk,
    tmp: Seq<char>,
    dst: Seq<char>,
    mtime: Option<i64>,
    data: Seq<u8>,
    k: int,
)
    requires
        tmp != dst,
        0 <= k <= write_steps(tmp, dst, mtime).len(),
    ensures
        ({
            let steps = write_steps(tmp, dst, mtime);
            let now = after_steps(d, steps.take(k), data);
            let n = steps.len();
            // the name is published by the last step but one
            &&& k < n - 1 ==> entry(now.live, dst) == entry(d.live, dst)
            &&& k < n ==> now.stable == d.stable
            &&& k >= n - 1 ==> now.live.contains_key(dst) && now.live[dst] == complete(data, mtime)
            &&& k == n ==> now.stable.contains_key(dst) && now.stable[dst] == complete(data, mtime)
            &&& k == n ==> !now.live.contains_key(tmp)
            &&& forall|p: Seq<char>|
                p != tmp && p != dst ==> #[trigger] entry(now.live, p) == entry(d.live, p)
        }),
{
    let steps = write_steps(tmp, dst, mtime);
    assert(steps.take(0) =~= Seq::empty());
    if k >= 1 {
        lemma_steps_take(d, steps, data, 0);
    }
    if k >= 2 {
        lemma_steps_take(d, steps, data, 1);
    }
    if k >= 3 {
        lemma_steps_take(d, steps, data, 2);
    }
    if k >= 4 {
        lemma_steps_take(d, steps, data, 3);
    }
    if k >= 5 {
        lemma_steps_take(d, steps, data, 4);
    }
    if k >= 6 {
        lemma_steps_take(d, steps, data, 5);
    }
}

/// A power cut never leaves a half-written file under the final name: whenever it happens
/// during a durable write, what is found under that name is what could have been found there
/// before the write began, or the complete new content with its date.
pub proof fn law_name_visible_only_with_content(
    d: Disk,
    tmp: Seq<char>,
    dst: Seq<char>,
    mtime: Option<i64>,
    data: Seq<u8>,
    k: int,
    found: Option<(Seq<u8>, Option<i64>)>,
)
    requires
        tmp != dst,
        0 <= k <= write_steps(tmp, dst, mtime).len(),
        may_find(after_steps(d, write_steps(tmp, dst, mtime).take(k), data), dst, found),
    ensures
        may_find(d, dst, found) || found == Some((data, mtime)),
{
    lemma_write_prefix(d, tmp, dst, mtime, data, k);
}

/// After a durable write, the complete content with its date is what a power cut leaves under
/// the final name, the temporary name is gone, and no other file has changed.
pub proof fn law_write_is_durable(
    d: Disk,
    tmp: Seq<char>,
    dst: Seq<char>,
    mtime: Option<i64>,
    data: Seq<u8>,
)
    requires
        tmp != dst,
    ensures
        ({
            let now = after_steps(d, write_steps(tmp, dst, mtime), data);
            &&& forall|found: Option<(Seq<u8>, Option<i64>)>| #[trigger]
                may_find(now, dst, found) <==> found == Some((data, mtime))
            &&& !now.live.contains_key(tmp)
            &&& forall|p: Seq<char>|
                p != tmp && p != dst ==> #[trigger] entry(now.live, p) == entry(d.live, p)
        }),
{
    let steps = write_steps(tmp, dst, mtime);
    assert(steps.take(steps.len() as int) =~= steps);
    lemma_write_prefix(d, tmp, dst, mtime, data, steps.len() as int);
    let now = after_steps(d, steps, data);
    assert(now.live[dst] == complete(data, mtime));
    assert(now.stable[dst] == complete(data, mtime));
    assert forall|found: Option<(Seq<u8>, Option<i64>)>| #[trigger]
        may_find(now, dst, found) <==> found == Some((data, mtime)) by {}
}

/// A durable rename of a file that is on stable storage keeps its content: once it is done, a
/// power cut leaves nothing but that content under the new name, the old name is gone, and no
/// other file has changed.
pub proof fn law_rename_is_durable(d: Disk, from: Seq<char>, to: Seq<char>, data: Seq<u8>)
    requires
        from != to,
        d.live.contains_key(from),
        d.live[from].synced,
    ensures
        ({
            let now = after_steps(d, rename_steps(from, to), data);
            let file = d.live[from];
            &&& forall|found: Option<(Seq<u8>, Option<i64>)>| #[trigger]
                may_find(now, to, found) <==> found == Some((file.data, file.date))
            &&& !now.live.contains_key(from)
            &&& forall|p: Seq<char>|
                p != from && p != to ==> #[trigger] entry(now.live, p) == entry(d.live, p)
        }),
{
    let steps = rename_steps(from, to);
    assert(steps.take(0) =~= Seq::empty());
    lemma_steps_take(d, steps, data, 0);
    lemma_steps_take(d, steps, data, 1);
    assert(steps.take(2) =~= steps);
}

/// The models of steps show everything in them.
pub proof fn law_models_show_every_step(v: Seq<Step>, a: String, b: String, secs: i64)
    ensures
        step_views(v).len() == v.len(),
        forall|i: int| 0 <= i < v.len() ==> #[trigger] step_views(v)[i] == v[i]@,
        (Step::Create { path: a })@ == (StepView::Create { path: a@ }),
        (Step::Write { path: a })@ == (StepView::Write { path: a@ }),
        (Step::SetTimes { path: a, secs })@ == (StepView::SetTimes { path: a@, secs }),
        (Step::SyncFile { path: a })@ == (StepView::SyncFile { path: a@ }),
        (Step::Rename { from: a, to: b })@ == (StepView::Rename { from: a@, to: b@ }),
        (Step::SyncDir { dir: a })@ == (StepView::SyncDir { dir: a@ }),
{
}

/// The order of a durable write: the content, then the date if there is one, then the file to
/// stable storage, then the name, then the directory that holds it to stable storage. A durable
/// rename is the last two of these.
pub proof fn law_order_of_durable_steps(tmp: Seq<char>, dst: Seq<char>, secs: i64)
    ensures
        write_steps(tmp, dst, None) == seq![
            StepView::Create { path: tmp },
            StepView::Write { path: tmp },
            StepView::SyncFile { path: tmp },
            StepView::Rename { from: tmp, to: dst },
            StepView::SyncDir { dir: path::parent_of(dst) },
        ],
        write_steps(tmp, dst, Some(secs)) == seq![
            StepView::Create { path: tmp },
            StepView::Write { path: tmp },
            StepView::SetTimes { path: tmp, secs },
            StepView::SyncFile { path: tmp },
            StepView::Rename { from: tmp, to: dst },
            StepView::SyncDir { dir: path::parent_of(dst) },
        ],
        rename_steps(tmp, dst) == seq![
            StepView::Rename { from: tmp, to: dst },
            StepView::SyncDir { dir: path::parent_of(dst) },
        ],
{
    assert(write_steps(tmp, dst, None) =~= seq![
        StepView::Create { path: tmp },
        StepView::Write { path: tmp },
        StepView::SyncFile { path: tmp },
        StepView::Rename { from: tmp, to: dst },
        StepView::SyncDir { dir: path::parent_of(dst) },
    ]);
    assert(write_steps(tmp, dst, Some(secs)) =~= seq![
        StepView::Create { path: tmp },
        StepView::Write { path: tmp },
        StepView::SetTimes { path: tmp, secs },
        StepView::SyncFile { path: tmp },
        StepView::Rename { from: tmp, to: dst },
        StepView::SyncDir { dir: path::parent_of(dst) },
    ]);
}

} // verus!

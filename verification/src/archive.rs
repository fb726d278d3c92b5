//! What holds of every sync: nothing is lost, nothing is fetched twice, and what was begun is
//! resumed.

use crate::durable;
use crate::durable::Disk;
use crate::folder;
use crate::folder::{FileOpView, SyncView};
use crate::hook;
use crate::maildir;
use crate::maildir::Flag;
use crate::path;
use crate::text;
use vstd::prelude::*;

verus! {

// ---------------------------------------------------------------------------
// Removing
// ---------------------------------------------------------------------------

/// This is an archive: without `expunge`, and also with it where the server enumerated nothing,
/// no stored message is removed.
pub proof fn law_archive_keeps_mail(
    v: SyncView,
    remote: Map<u32, Seq<char>>,
    ops: Seq<FileOpView>,
)
    requires
        folder::are_changes(ops, v, remote),
        !v.expunge || remote.dom().is_empty(),
    ensures
        forall|i: int| 0 <= i < ops.len() ==> #[trigger] ops[i] is Rename,
{
    assert forall|i: int| 0 <= i < ops.len() implies #[trigger] ops[i] is Rename by {
        assert(ops.contains(ops[i]));
    }
}

/// A folder that claims to be empty (`0 EXISTS`) never costs a stored message, whatever the
/// account asks for and whatever else the server answers.
pub proof fn law_zero_exists_empties_nothing(
    v: SyncView,
    replies: Seq<folder::FlagsReply>,
    ops: Seq<FileOpView>,
)
    requires
        v.exists == 0,
        folder::are_changes(ops, v, folder::remote_seen(v, replies)),
    ensures
        ops.len() == 0,
{
    if ops.len() > 0 {
        assert(ops.contains(ops[0]));
        assert(folder::remote_seen(v, replies).dom() =~= Set::empty());
    }
}

/// With `expunge`, the messages that are removed are exactly the stored ones that a server
/// which enumerated something did not report.
pub proof fn law_expunge_removes_only_what_is_gone(
    v: SyncView,
    remote: Map<u32, Seq<char>>,
    ops: Seq<FileOpView>,
    uid: u32,
)
    requires
        folder::are_changes(ops, v, remote),
        v.expunge,
        !remote.dom().is_empty(),
    ensures
        (exists|i: int| 0 <= i < ops.len() && #[trigger] ops[i] is Remove && ops[i].uid() == uid)
            <==> v.local.contains_key(uid) && !remote.contains_key(uid),
{
    if v.local.contains_key(uid) && !remote.contains_key(uid) {
        let o = FileOpView::Remove { uid, path: v.local[uid] };
        assert(ops.contains(o));
        let i = choose|i: int| 0 <= i < ops.len() && ops[i] == o;
        assert(ops[i] is Remove && ops[i].uid() == uid);
    }
    if exists|i: int| 0 <= i < ops.len() && #[trigger] ops[i] is Remove && ops[i].uid() == uid {
        let i = choose|i: int|
            0 <= i < ops.len() && #[trigger] ops[i] is Remove && ops[i].uid() == uid;
        assert(ops.contains(ops[i]));
    }
}

// ---------------------------------------------------------------------------
// The stored messages after the changes
// ---------------------------------------------------------------------------

/// The stored messages after one change.
pub open spec fn after_op(local: Map<u32, Seq<char>>, op: FileOpView) -> Map<u32, Seq<char>> {
    match op {
        FileOpView::Remove { uid, .. } => local.remove(uid),
        FileOpView::Rename { uid, to, .. } => local.insert(uid, to),
    }
}

/// The stored messages after some changes in order.
pub open spec fn after_ops(local: Map<u32, Seq<char>>, ops: Seq<FileOpView>) -> Map<
    u32,
    Seq<char>,
>
    decreases ops.len(),
{
    if ops.len() == 0 {
        local
    } else {
        after_op(after_ops(local, ops.drop_last()), ops.last())
    }
}

/// A message that no change names stays where it is.
proof fn lemma_unnamed_stays(local: Map<u32, Seq<char>>, ops: Seq<FileOpView>, uid: u32)
    requires
        forall|i: int| 0 <= i < ops.len() ==> (#[trigger] ops[i]).uid() != uid,
    ensures
        after_ops(local, ops).contains_key(uid) == local.contains_key(uid),
        local.contains_key(uid) ==> after_ops(local, ops)[uid] == local[uid],
    decreases ops.len(),
{
    if ops.len() > 0 {
        let front = ops.drop_last();
        assert(ops[ops.len() - 1].uid() != uid);
        assert forall|i: int| 0 <= i < front.len() implies (#[trigger] front[i]).uid() != uid by {
            assert(front[i] == ops[i]);
        }
        lemma_unnamed_stays(local, front, uid);
    }
}

/// A message that one change names, and no later one, is as that change leaves it.
proof fn lemma_named_changes(
    local: Map<u32, Seq<char>>,
    ops: Seq<FileOpView>,
    k: int,
)
    requires
        0 <= k < ops.len(),
        forall|i: int, j: int| 0 <= i < j < ops.len() ==> ops[i].uid() < ops[j].uid(),
    ensures
        match ops[k] {
            FileOpView::Remove { uid, .. } => !after_ops(local, ops).contains_key(uid),
            FileOpView::Rename { uid, to, .. } => after_ops(local, ops).contains_key(uid)
                && after_ops(local, ops)[uid] == to,
        },
    decreases ops.len(),
{
    let front = ops.drop_last();
    if k < front.len() {
        assert(front[k] == ops[k]);
        lemma_named_changes(local, front, k);
        assert(ops[k].uid() < ops[ops.len() - 1].uid());
    }
}

/// After the changes, the stored messages are those that were there, without the ones that the
/// server no longer has where they are to go; and where flags are mirrored, every message that
/// the server has stands in the place of its flags.
pub proof fn law_changes_bring_in_line(
    v: SyncView,
    remote: Map<u32, Seq<char>>,
    ops: Seq<FileOpView>,
    uid: u32,
)
    requires
        folder::are_changes(ops, v, remote),
    ensures
        ({
            let now = after_ops(v.local, ops);
            let goes = v.expunge && !remote.dom().is_empty() && !remote.contains_key(uid);
            &&& now.contains_key(uid) <==> v.local.contains_key(uid) && !goes
            &&& now.contains_key(uid) && v.sync_flags && remote.contains_key(uid) ==> now[uid]
                == folder::place(v.dir, v.uv, uid, remote[uid])
            &&& now.contains_key(uid) && !(v.sync_flags && remote.contains_key(uid)) ==> now[uid]
                == v.local[uid]
        }),
{
    if exists|k: int| 0 <= k < ops.len() && (#[trigger] ops[k]).uid() == uid {
        let k = choose|k: int| 0 <= k < ops.len() && (#[trigger] ops[k]).uid() == uid;
        assert(ops.contains(ops[k]));
        lemma_named_changes(v.local, ops, k);
    } else {
        lemma_unnamed_stays(v.local, ops, uid);
        if v.local.contains_key(uid) {
            if let Some(o) = folder::change_for(v, remote, uid) {
                assert(o.uid() == uid);
                assert(ops.contains(o));
                let k = choose|k: int| 0 <= k < ops.len() && ops[k] == o;
                assert(ops[k].uid() == uid);
            }
        }
    }
}

/// The stored messages are in line with the server's: all of its messages are stored, where
/// flags are mirrored each in the place of its flags, and none is stored that is to go.
pub open spec fn in_line(v: SyncView, remote: Map<u32, Seq<char>>) -> bool {
    &&& forall|u: u32| #[trigger] remote.contains_key(u) ==> v.local.contains_key(u)
    &&& forall|u: u32| #[trigger]
        v.local.contains_key(u) ==> if remote.contains_key(u) {
            v.sync_flags ==> v.local[u] == folder::place(v.dir, v.uv, u, remote[u])
        } else {
            !(v.expunge && !remote.dom().is_empty())
        }
}

/// A folder that is in line with the server is left alone, with no change and nothing to fetch,
/// and no other folder is.
pub proof fn law_synced_folder_is_left_alone(
    v: SyncView,
    remote: Map<u32, Seq<char>>,
    ops: Seq<FileOpView>,
    pending: Seq<u32>,
)
    requires
        folder::are_changes(ops, v, remote),
        folder::are_missing(pending, v.local, remote),
    ensures
        ops.len() == 0 && pending.len() == 0 <==> in_line(v, remote),
{
    if in_line(v, remote) {
        if ops.len() > 0 {
            assert(ops.contains(ops[0]));
            assert(v.local.contains_key(ops[0].uid()));
        }
        if pending.len() > 0 {
            assert(pending.contains(pending[0]));
            assert(remote.contains_key(pending[0]));
        }
    }
    if ops.len() == 0 && pending.len() == 0 {
        assert forall|u: u32| #[trigger] remote.contains_key(u) implies v.local.contains_key(u) by {
            if !v.local.contains_key(u) {
                assert(pending.contains(u));
            }
        }
        assert forall|u: u32| #[trigger] v.local.contains_key(u) implies if remote.contains_key(u) {
            v.sync_flags ==> v.local[u] == folder::place(v.dir, v.uv, u, remote[u])
        } else {
            !(v.expunge && !remote.dom().is_empty())
        } by {
            if let Some(o) = folder::change_for(v, remote, u) {
                assert(o.uid() == u);
                assert(ops.contains(o));
            }
        }
    }
}

/// The stored messages after those of a batch of answers have been stored.
pub open spec fn after_bodies(
    local: Map<u32, Seq<char>>,
    v: SyncView,
    bodies: Seq<folder::BodyReply>,
) -> Map<u32, Seq<char>>
    decreases bodies.len(),
{
    if bodies.len() == 0 {
        local
    } else {
        let before = after_bodies(local, v, bodies.drop_last());
        match (bodies.last().uid, folder::delivery_for(v, bodies.last())) {
            (Some(uid), Some(d)) => before.insert(uid, d.dst),
            _ => before,
        }
    }
}

/// What comes with its content is a reported message with the flags that were reported.
pub open spec fn as_reported(remote: Map<u32, Seq<char>>, b: folder::BodyReply) -> bool {
    b.uid is Some && b.body is Some ==> remote.contains_key(b.uid->0) && remote[b.uid->0]
        == maildir::info_of(b.flags@)
}

/// What is stored after a batch: what was, and what came.
proof fn lemma_after_bodies(
    local: Map<u32, Seq<char>>,
    v: SyncView,
    remote: Map<u32, Seq<char>>,
    bodies: Seq<folder::BodyReply>,
    uid: u32,
)
    requires
        forall|i: int| 0 <= i < bodies.len() ==> as_reported(remote, #[trigger] bodies[i]),
    ensures
        ({
            let now = after_bodies(local, v, bodies);
            let came = exists|i: int|
                0 <= i < bodies.len() && (#[trigger] bodies[i]).uid == Some(uid) && bodies[i].body
                    is Some;
            &&& now.contains_key(uid) <==> local.contains_key(uid) || came
            &&& came ==> remote.contains_key(uid) && now[uid] == folder::place(
                v.dir,
                v.uv,
                uid,
                remote[uid],
            )
            &&& !came && local.contains_key(uid) ==> now[uid] == local[uid]
        }),
    decreases bodies.len(),
{
    if bodies.len() > 0 {
        let front = bodies.drop_last();
        let last = bodies[bodies.len() - 1];
        assert forall|i: int| 0 <= i < front.len() implies as_reported(
            remote,
            #[trigger] front[i],
        ) by {
            assert(front[i] == bodies[i]);
        }
        lemma_after_bodies(local, v, remote, front, uid);
        assert(as_reported(remote, last));
        if exists|i: int|
            0 <= i < front.len() && (#[trigger] front[i]).uid == Some(uid) && front[i].body
                is Some {
            let i = choose|i: int|
                0 <= i < front.len() && (#[trigger] front[i]).uid == Some(uid) && front[i].body
                    is Some;
            assert(bodies[i].uid == Some(uid));
        }
        if exists|i: int|
            0 <= i < bodies.len() && (#[trigger] bodies[i]).uid == Some(uid) && bodies[i].body
                is Some {
            let i = choose|i: int|
                0 <= i < bodies.len() && (#[trigger] bodies[i]).uid == Some(uid)
                    && bodies[i].body is Some;
            if i < front.len() {
                assert(front[i].uid == Some(uid));
            }
        }
    }
}

/// A second sync has nothing to do: after a sync in which each message that was asked for came,
/// with the flags that were reported, the folder is in line with the server, so as long as
/// nothing changes there, the next comparison gives no change and nothing to fetch. Messages
/// that are only here, flags that are not mirrored and a folder that claims to be empty are no
/// exceptions.
pub proof fn law_second_sync_does_nothing(
    v: SyncView,
    replies: Seq<folder::FlagsReply>,
    after: SyncView,
    ops: Seq<FileOpView>,
    bodies: Seq<folder::BodyReply>,
    again: SyncView,
    replies_again: Seq<folder::FlagsReply>,
    after_again: SyncView,
    ops_again: Seq<FileOpView>,
)
    requires
        folder::is_comparison(v, replies, after, ops),
        forall|u: u32| #[trigger]
            after.pending.contains(u) ==> exists|i: int|
                0 <= i < bodies.len() && (#[trigger] bodies[i]).uid == Some(u) && bodies[i].body
                    is Some,
        forall|i: int| 0 <= i < bodies.len() ==> as_reported(after.remote, #[trigger] bodies[i]),
        again.dir == v.dir && again.uv == v.uv,
        again.expunge == v.expunge && again.sync_flags == v.sync_flags,
        again.local == after_bodies(after_ops(v.local, ops), after, bodies),
        folder::is_comparison(again, replies_again, after_again, ops_again),
        after_again.remote == after.remote,
    ensures
        in_line(again, after.remote),
        ops_again.len() == 0,
        after_again.pending.len() == 0,
{
    let remote = after.remote;
    let kept = after_ops(v.local, ops);
    assert forall|u: u32| #[trigger] remote.contains_key(u) implies again.local.contains_key(u) by {
        law_changes_bring_in_line(v, remote, ops, u);
        lemma_after_bodies(kept, after, remote, bodies, u);
        if !v.local.contains_key(u) {
            assert(after.pending.contains(u));
        }
    }
    assert forall|u: u32| #[trigger] again.local.contains_key(u) implies if remote.contains_key(u) {
        again.sync_flags ==> again.local[u] == folder::place(again.dir, again.uv, u, remote[u])
    } else {
        !(again.expunge && !remote.dom().is_empty())
    } by {
        law_changes_bring_in_line(v, remote, ops, u);
        lemma_after_bodies(kept, after, remote, bodies, u);
    }
    law_synced_folder_is_left_alone(again, remote, ops_again, after_again.pending);
}

// ---------------------------------------------------------------------------
// Places
// ---------------------------------------------------------------------------

/// Info letters are letters.
proof fn lemma_info_letters(flags: Seq<Flag>, info: Seq<char>, c: char)
    requires
        maildir::is_info(info, flags),
        info.contains(c),
    ensures
        c == 'D' || c == 'F' || c == 'R' || c == 'S' || c == 'T',
{
    broadcast use vstd::seq_lib::group_to_multiset_ensures;

    let f = |x: Flag| maildir::letter_of(x);
    let letters = maildir::letters_of(flags);
    assert(info.to_multiset().count(c) > 0);
    assert(letters.contains(c));
    flags.lemma_filter_map_contains(f, c);
}

/// A message name is one plain directory entry.
proof fn lemma_name_plain(uv: u32, uid: u32, info: Seq<char>)
    requires
        !info.contains('/'),
    ensures
        path::plain(maildir::name_of(uv, uid, info)),
{
    reveal_strlit(".");
    reveal_strlit(".mailarchive,U=");
    reveal_strlit(":2,");
    let a = text::decimal(uv as nat);
    let b = text::decimal(uid as nat);
    text::law_decimal_reads_back(uv as nat);
    text::law_decimal_reads_back(uid as nat);
    let name = maildir::name_of(uv, uid, info);
    let p1 = a + "."@;
    let p2 = p1 + b;
    let p3 = p2 + ".mailarchive,U="@;
    let p4 = p3 + b;
    let p5 = p4 + ":2,"@;
    assert(name == p5 + info);
    assert(name.len() > 2);
    assert forall|i: int| 0 <= i < name.len() implies name[i] != '/' by {
        if i < a.len() {
            assert(text::is_digit(a[i]));
        } else if i < p1.len() {
        } else if i < p2.len() {
            assert(text::is_digit(b[i - p1.len()]));
        } else if i < p3.len() {
            assert(name[i] == ".mailarchive,U="@[i - p2.len()]);
        } else if i < p4.len() {
            assert(text::is_digit(b[i - p3.len()]));
        } else if i < p5.len() {
            assert(name[i] == ":2,"@[i - p4.len()]);
        } else {
            assert(info.contains(info[i - p5.len()]));
        }
    }
}

/// Two messages never get the same place, whatever their flags are: a rename or a delivery of
/// one cannot overwrite another.
pub proof fn law_places_do_not_collide(
    dir: Seq<char>,
    uv: u32,
    a: u32,
    b: u32,
    flags_a: Seq<Flag>,
    flags_b: Seq<Flag>,
    info_a: Seq<char>,
    info_b: Seq<char>,
)
    requires
        a != b,
        maildir::is_info(info_a, flags_a),
        maildir::is_info(info_b, flags_b),
    ensures
        folder::place(dir, uv, a, info_a) != folder::place(dir, uv, b, info_b),
        path::components(folder::place(dir, uv, a, info_a)) != path::components(
            folder::place(dir, uv, b, info_b),
        ),
{
    let x = maildir::name_of(uv, a, info_a);
    let y = maildir::name_of(uv, b, info_b);
    if info_a.contains('/') {
        lemma_info_letters(flags_a, info_a, '/');
    }
    if info_b.contains('/') {
        lemma_info_letters(flags_b, info_b, '/');
    }
    lemma_name_plain(uv, a, info_a);
    lemma_name_plain(uv, b, info_b);
    let p = path::joined(dir, maildir::subdir_of(info_a));
    let q = path::joined(dir, maildir::subdir_of(info_b));
    path::law_join_adds_component(p, x);
    path::law_join_adds_component(q, y);
    maildir::law_uid_reads_back(uv, a, info_a);
    maildir::law_uid_reads_back(uv, b, info_b);
    assert(path::components(p).push(x).last() == x);
    assert(path::components(q).push(y).last() == y);
}

/// The place of a message is never that of a file which belongs to another message or to none:
/// a rename or a delivery cannot overwrite it.
pub proof fn law_place_takes_no_other_file(
    dir: Seq<char>,
    uv: u32,
    uid: u32,
    flags: Seq<Flag>,
    info: Seq<char>,
    sub: Seq<char>,
    name: Seq<char>,
)
    requires
        maildir::is_info(info, flags),
        path::plain(name),
        maildir::uid_of(name) != Some(uid),
    ensures
        folder::place(dir, uv, uid, info) != path::joined(path::joined(dir, sub), name),
        path::components(folder::place(dir, uv, uid, info)) != path::components(
            path::joined(path::joined(dir, sub), name),
        ),
{
    let x = maildir::name_of(uv, uid, info);
    if info.contains('/') {
        lemma_info_letters(flags, info, '/');
    }
    lemma_name_plain(uv, uid, info);
    maildir::law_uid_reads_back(uv, uid, info);
    let p = path::joined(dir, maildir::subdir_of(info));
    let q = path::joined(dir, sub);
    path::law_join_adds_component(p, x);
    path::law_join_adds_component(q, name);
    assert(path::components(p).push(x).last() == x);
    assert(path::components(q).push(name).last() == name);
}

// ---------------------------------------------------------------------------
// Epochs
// ---------------------------------------------------------------------------

/// What is written to the state file is read back.
pub proof fn law_epoch_reads_back(uv: u32)
    ensures
        folder::recorded(folder::state_of(uv)) == Some(uv),
{
    let n = text::decimal(uv as nat);
    let state = folder::state_of(uv);
    let lf = seq!['\n'];
    text::law_decimal_reads_back(uv as nat);
    assert(state.subrange(n.len() as int, n.len() as int + 1) =~= lf);
    assert forall|j: int| 0 <= j < n.len() implies !text::occurs_at(state, lf, j) by {
        if text::occurs_at(state, lf, j) {
            assert(state.subrange(j, j + 1)[0] == '\n');
            assert(text::is_digit(n[j]));
        }
    }
    text::lemma_split_at(state, lf, n.len() as int);
    assert(state.take(n.len() as int) =~= n);
    assert(text::is_digit(n[0]) && text::is_digit(n[n.len() - 1]));
    assert(text::trimmed(n) == n);
}

/// A first sync that was interrupted resumes: once the epoch has been recorded, a folder of
/// that epoch is synced, whatever messages it holds by then, and nothing is recorded again.
pub proof fn law_interrupted_sync_resumes(found: folder::Opened, uv: u32)
    requires
        found.uid_validity == uv,
        found.state is Some,
        found.state->0@ == folder::state_of(uv),
    ensures
        found.accepted(),
        found.epoch() == Some(uv),
{
    law_epoch_reads_back(uv);
}

/// A folder that holds files of another epoch is left alone, and so is one that holds files of
/// which no state file tells the epoch, whatever their names are; a folder without files is
/// synced, so one whose directory was moved aside is fetched afresh.
pub proof fn law_foreign_folder_is_left_alone(found: folder::Opened)
    requires
        found.epoch() != Some(found.uid_validity),
    ensures
        found.accepted() <==> found.cur@.len() == 0 && found.new@.len() == 0 && found.unreadable
            == 0,
{
}

/// A sync of a new epoch begins with no message stored.
pub proof fn law_new_epoch_starts_empty(found: folder::Opened, dir: Seq<char>)
    requires
        found.epoch() != Some(found.uid_validity),
        found.accepted(),
    ensures
        found.local(dir) == Map::<u32, Seq<char>>::empty(),
{
    assert(text::views(found.cur@) =~= Seq::empty());
    assert(text::views(found.new@) =~= Seq::empty());
}

// ---------------------------------------------------------------------------
// Fetching
// ---------------------------------------------------------------------------

/// A message that was delivered is not fetched again: once its file is listed, the scan
/// reports its UID, and it is not among the missing ones.
pub proof fn law_delivered_is_not_fetched_again(
    dir: Seq<char>,
    cur: Seq<Seq<char>>,
    new: Seq<Seq<char>>,
    uv: u32,
    uid: u32,
    info: Seq<char>,
    remote: Map<u32, Seq<char>>,
    pending: Seq<u32>,
)
    requires
        cur.contains(maildir::name_of(uv, uid, info)) || new.contains(
            maildir::name_of(uv, uid, info),
        ),
        folder::are_missing(pending, maildir::stored(dir, cur, new), remote),
    ensures
        !pending.contains(uid),
{
    maildir::law_uid_reads_back(uv, uid, info);
    maildir::law_scan_misses_nothing(dir, cur, new, maildir::name_of(uv, uid, info), uid);
}

/// The batches in which pending messages are fetched.
pub open spec fn batches(pending: Seq<u32>) -> Seq<Seq<u32>>
    decreases pending.len(),
{
    if pending.len() == 0 {
        Seq::empty()
    } else {
        let n = folder::batch_len(pending);
        seq![pending.take(n)] + batches(pending.skip(n))
    }
}

/// Every pending message is fetched in exactly one batch, in order, and no batch is empty or
/// larger than allowed.
pub proof fn law_batches_cover_pending(pending: Seq<u32>)
    ensures
        batches(pending).flatten() == pending,
        forall|i: int|
            0 <= i < batches(pending).len() ==> 0 < (#[trigger] batches(pending)[i]).len()
                <= folder::BATCH,
    decreases pending.len(),
{
    if pending.len() > 0 {
        let n = folder::batch_len(pending);
        let rest = pending.skip(n);
        law_batches_cover_pending(rest);
        let all = batches(pending);
        assert(all == seq![pending.take(n)] + batches(rest));
        assert(all.drop_first() =~= batches(rest));
        assert(all.first() == pending.take(n));
        assert(all.flatten() =~= pending.take(n) + batches(rest).flatten());
        assert(pending.take(n) + rest =~= pending);
        assert forall|i: int| 0 <= i < all.len() implies 0 < (#[trigger] all[i]).len()
            <= folder::BATCH by {
            if i > 0 {
                assert(all[i] == batches(rest)[i - 1]);
            }
        }
    }
}

/// A message is stored as the server sent it, under a name that carries its UID, and with the
/// server's date.
pub proof fn law_messages_are_stored_unchanged(
    v: SyncView,
    uid: u32,
    flags: Vec<Flag>,
    date: Option<i64>,
    body: &[u8],
)
    ensures
        ({
            let b = folder::BodyReply { uid: Some(uid), flags, date, body: Some(body) };
            let d = folder::delivery_for(v, b);
            &&& d is Some
            &&& d->0.data == body@
            &&& d->0.mtime == date
            &&& d->0.dst == folder::place(v.dir, v.uv, uid, maildir::info_of(flags@))
            &&& maildir::uid_of(maildir::name_of(v.uv, uid, maildir::info_of(flags@))) == Some(
                uid,
            )
        }),
{
    maildir::law_uid_reads_back(v.uv, uid, maildir::info_of(flags@));
}

/// What comes with its content is stored.
proof fn lemma_sent_is_delivered(v: SyncView, bodies: Seq<folder::BodyReply>, i: int, k: int)
    requires
        0 <= i < k <= bodies.len(),
        folder::delivery_for(v, bodies[i]) is Some,
    ensures
        folder::deliveries(v, bodies.take(k)).contains(folder::delivery_for(v, bodies[i])->0),
    decreases k,
{
    let f = |b: folder::BodyReply| folder::delivery_for(v, b);
    let d = folder::delivery_for(v, bodies[i])->0;
    let before = folder::deliveries(v, bodies.take(k - 1));
    let all = folder::deliveries(v, bodies.take(k));
    bodies.lemma_filter_map_take_succ(f, k - 1);
    if i < k - 1 {
        lemma_sent_is_delivered(v, bodies, i, k - 1);
        let j = choose|j: int| 0 <= j < before.len() && before[j] == d;
        assert(all[j] == d);
    } else {
        assert(all[before.len() as int] == d);
    }
}

/// A sync brings the folder in line with the server: if the server sends each message that it
/// is asked for, then afterwards every message that it has is stored, from before or by this
/// sync, and of those that were stored only the ones that are to go are gone.
pub proof fn law_sync_completes_the_archive(
    v: SyncView,
    replies: Seq<folder::FlagsReply>,
    after: SyncView,
    ops: Seq<FileOpView>,
    bodies: Seq<folder::BodyReply>,
    uid: u32,
)
    requires
        folder::is_comparison(v, replies, after, ops),
        forall|u: u32| #[trigger]
            after.pending.contains(u) ==> exists|i: int|
                0 <= i < bodies.len() && (#[trigger] bodies[i]).uid == Some(u) && bodies[i].body
                    is Some,
    ensures
        ({
            let remote = folder::remote_seen(v, replies);
            let kept = after_ops(v.local, ops);
            let stored = folder::deliveries(after, bodies);
            &&& remote.contains_key(uid) && !kept.contains_key(uid) ==> exists|i: int|
                {
                    &&& 0 <= i < bodies.len()
                    &&& (#[trigger] bodies[i]).uid == Some(uid)
                    &&& folder::delivery_for(after, bodies[i]) is Some
                    &&& stored.contains(folder::delivery_for(after, bodies[i])->0)
                }
            &&& v.local.contains_key(uid) && !kept.contains_key(uid) ==> v.expunge
                && !remote.dom().is_empty() && !remote.contains_key(uid)
        }),
{
    let remote = folder::remote_seen(v, replies);
    law_changes_bring_in_line(v, remote, ops, uid);
    if remote.contains_key(uid) && !v.local.contains_key(uid) {
        assert(after.pending.contains(uid));
        let i = choose|i: int|
            0 <= i < bodies.len() && (#[trigger] bodies[i]).uid == Some(uid) && bodies[i].body
                is Some;
        lemma_sent_is_delivered(after, bodies, i, bodies.len() as int);
        assert(bodies.take(bodies.len() as int) =~= bodies);
        assert(folder::delivery_for(after, bodies[i]) is Some);
    }
}

/// Every message that is stored runs the hook, if there is one, with its own path put in, and
/// the shell reads that path back as one word.
pub proof fn law_every_stored_message_runs_the_hook(v: SyncView, b: folder::BodyReply)
    requires
        folder::delivery_for(v, b) is Some,
    ensures
        ({
            let d = folder::delivery_for(v, b)->0;
            &&& d.hook is Some <==> v.hook is Some
            &&& v.hook is Some ==> d.hook->0 == hook::command_for(v.hook->0, d.dst)
            &&& hook::shell_word(hook::shell_quoted(d.dst), false) == Some(d.dst)
        }),
{
    hook::law_shell_reads_back(folder::delivery_for(v, b)->0.dst);
}

// ---------------------------------------------------------------------------
// Power cuts
// ---------------------------------------------------------------------------

/// The temporary name of a message is one plain directory entry, and not its final name.
proof fn lemma_temporary_name(uv: u32, uid: u32, info: Seq<char>)
    ensures
        ({
            let t = text::decimal(uv as nat) + "."@ + text::decimal(uid as nat);
            path::plain(t) && t != maildir::name_of(uv, uid, info)
        }),
{
    reveal_strlit(".");
    reveal_strlit(".mailarchive,U=");
    let a = text::decimal(uv as nat);
    let b = text::decimal(uid as nat);
    text::law_decimal_reads_back(uv as nat);
    text::law_decimal_reads_back(uid as nat);
    let t = a + "."@ + b;
    assert(t.len() > 2);
    assert forall|i: int| 0 <= i < t.len() implies t[i] != '/' by {
        if i < a.len() {
            assert(text::is_digit(a[i]));
        } else if i > a.len() {
            assert(text::is_digit(b[i - a.len() - 1]));
        }
    }
    assert(maildir::name_of(uv, uid, info).len() > t.len());
}

/// A message is written under a name of its own before it gets its final one.
pub proof fn law_message_is_written_apart(v: SyncView, b: folder::BodyReply)
    requires
        folder::delivery_for(v, b) is Some,
    ensures
        folder::delivery_for(v, b)->0.tmp != folder::delivery_for(v, b)->0.dst,
{
    let uid = b.uid->0;
    let info = maildir::info_of(b.flags@);
    let x = maildir::name_of(v.uv, uid, info);
    let t = text::decimal(v.uv as nat) + "."@ + text::decimal(uid as nat);
    let p = path::joined(v.dir, maildir::subdir_of(info));
    let q = path::joined(v.dir, "tmp"@);
    lemma_temporary_name(v.uv, uid, info);
    path::law_join_adds_component(q, t);
    maildir::law_info_exists(b.flags@);
    if info.contains('/') {
        lemma_info_letters(b.flags@, info, '/');
    }
    lemma_name_plain(v.uv, uid, info);
    path::law_join_adds_component(p, x);
    assert(path::components(p).push(x).last() == x);
    assert(path::components(q).push(t).last() == t);
}

/// A power cut cannot leave a broken message under a valid name: whenever it comes while a
/// message is stored, what is found under the final name is what could have been found there
/// before, or the message as the server sent it with its date; and once the message is stored,
/// nothing but that is found.
pub proof fn law_message_survives_a_power_cut(
    d: Disk,
    v: SyncView,
    b: folder::BodyReply,
    k: int,
    found: Option<(Seq<u8>, Option<i64>)>,
)
    requires
        folder::delivery_for(v, b) is Some,
        ({
            let m = folder::delivery_for(v, b)->0;
            let steps = durable::write_steps(m.tmp, m.dst, m.mtime);
            &&& 0 <= k <= steps.len()
            &&& durable::may_find(durable::after_steps(d, steps.take(k), m.data), m.dst, found)
        }),
    ensures
        ({
            let m = folder::delivery_for(v, b)->0;
            let whole = Some((b.body->0@, b.date));
            &&& durable::may_find(d, m.dst, found) || found == whole
            &&& k == durable::write_steps(m.tmp, m.dst, m.mtime).len() ==> found == whole
        }),
{
    let m = folder::delivery_for(v, b)->0;
    let steps = durable::write_steps(m.tmp, m.dst, m.mtime);
    law_message_is_written_apart(v, b);
    durable::law_name_visible_only_with_content(d, m.tmp, m.dst, m.mtime, m.data, k, found);
    if k == steps.len() {
        durable::law_write_is_durable(d, m.tmp, m.dst, m.mtime, m.data);
        assert(steps.take(k) =~= steps);
    }
}

} // verus!

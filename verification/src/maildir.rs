//! The local Maildir: how messages and folders are named, and which messages are stored.

pub use crate::durable::{rename_durable, write_durable};
use crate::path;
use crate::text;
use std::collections::BTreeMap;
use vstd::prelude::*;
use vstd::string::StringExecFns;

verus! {

/// An IMAP message flag.
#[derive(Debug)]
pub enum Flag {
    Seen,
    Answered,
    Flagged,
    Deleted,
    Draft,
    Recent,
    MayCreate,
    Custom(String),
}

// ---------------------------------------------------------------------------
// Flags
// ---------------------------------------------------------------------------

/// The Maildir info letter of a flag; only five flags have one.
pub open spec fn letter_of(f: Flag) -> Option<char> {
    match f {
        Flag::Draft => Some('D'),
        Flag::Flagged => Some('F'),
        Flag::Answered => Some('R'),
        Flag::Seen => Some('S'),
        Flag::Deleted => Some('T'),
        _ => None,
    }
}

/// The letters of the flags that have one, in the order of the flags.
pub open spec fn letters_of(flags: Seq<Flag>) -> Seq<char> {
    flags.filter_map(|f: Flag| letter_of(f))
}

pub open spec fn ascending(s: Seq<char>) -> bool {
    forall|i: int, j: int| 0 <= i < j < s.len() ==> s[i] <= s[j]
}

/// `info` holds the letters of `flags`, each as often as its flag, in ascending order.
pub open spec fn is_info(info: Seq<char>, flags: Seq<Flag>) -> bool {
    &&& ascending(info)
    &&& info.to_multiset() == letters_of(flags).to_multiset()
}

/// The info letters of `flags`; there is only one such string.
pub open spec fn info_of(flags: Seq<Flag>) -> Seq<char> {
    choose|s: Seq<char>| is_info(s, flags)
}

/// Which letters stand in the info, and in which order, leaves no choice.
pub proof fn law_info_unique(a: Seq<char>, b: Seq<char>, flags: Seq<Flag>)
    requires
        is_info(a, flags),
        is_info(b, flags),
    ensures
        a == b,
        a == info_of(flags),
{
    let leq = |x: char, y: char| x <= y;
    assert(vstd::relations::total_ordering(leq));
    assert(vstd::relations::sorted_by(a, leq));
    assert(vstd::relations::sorted_by(b, leq));
    vstd::seq_lib::lemma_sorted_unique(a, b, leq);
    let c = info_of(flags);
    assert(is_info(c, flags));
    assert(vstd::relations::sorted_by(c, leq));
    vstd::seq_lib::lemma_sorted_unique(a, c, leq);
}

/// Every set of flags has info letters.
pub proof fn law_info_exists(flags: Seq<Flag>)
    ensures
        is_info(info_of(flags), flags),
{
    let leq = |x: char, y: char| x <= y;
    assert(vstd::relations::total_ordering(leq));
    let letters = letters_of(flags);
    let s = letters.sort_by(leq);
    letters.lemma_sort_by_ensures(leq);
    assert forall|i: int, j: int| 0 <= i < j < s.len() implies s[i] <= s[j] by {
        assert(leq(s[i], s[j]));
    }
    assert(is_info(s, flags));
}

fn letter(f: &Flag) -> (r: Option<char>)
    ensures
        r == letter_of(*f),
{
    match f {
        Flag::Draft => Some('D'),
        Flag::Flagged => Some('F'),
        Flag::Answered => Some('R'),
        Flag::Seen => Some('S'),
        Flag::Deleted => Some('T'),
        _ => None,
    }
}

/// Puts `c` into an ascending list, so that it stays ascending.
fn insert_ascending(v: &mut Vec<char>, c: char)
    requires
        ascending(old(v)@),
    ensures
        ascending(final(v)@),
        final(v)@.to_multiset() == old(v)@.to_multiset().insert(c),
{
    let mut i: usize = 0;
    while i < v.len() && v[i] <= c
        invariant
            i <= v@.len(),
            v@ == old(v)@,
            forall|k: int| 0 <= k < i ==> v@[k] <= c,
        decreases v@.len() - i,
    {
        i = i + 1;
    }
    let ghost before = v@;
    v.insert(i, c);
    proof {
        vstd::seq_lib::to_multiset_insert(before, i as int, c);
        assert forall|a: int, b: int| 0 <= a < b < v@.len() implies v@[a] <= v@[b] by {
            if i <= a {
                if a > i {
                    assert(v@[a] == before[a - 1]);
                }
                assert(v@[b] == before[b - 1]);
                assert(c < before[i as int]);
            }
        }
    }
}

/// Map IMAP system flags to Maildir info letters (sorted, as Maildir wants them).
pub fn flags_of(flags: &[Flag]) -> (r: String)
    ensures
        is_info(r@, flags@),
        r@ == info_of(flags@),
{
    let mut v: Vec<char> = Vec::new();
    let ghost f = |x: Flag| letter_of(x);
    let mut i: usize = 0;
    proof {
        assert(flags@.take(0) =~= Seq::empty());
        assert(v@ =~= letters_of(flags@.take(0)));
    }
    while i < flags.len()
        invariant
            i <= flags@.len(),
            f == (|x: Flag| letter_of(x)),
            ascending(v@),
            v@.to_multiset() == letters_of(flags@.take(i as int)).to_multiset(),
        decreases flags@.len() - i,
    {
        let ghost some = letters_of(flags@.take(i as int));
        proof {
            flags@.lemma_filter_map_take_succ(f, i as int);
        }
        if let Some(c) = letter(&flags[i]) {
            insert_ascending(&mut v, c);
            proof {
                assert(letters_of(flags@.take(i + 1)) =~= some.push(c));
                vstd::seq_lib::to_multiset_build(some, c);
            }
        } else {
            proof {
                assert(letters_of(flags@.take(i + 1)) =~= some);
            }
        }
        i = i + 1;
    }
    proof {
        assert(flags@.take(i as int) =~= flags@);
        law_info_unique(v@, v@, flags@);
        assert(v@.subrange(0, v@.len() as int) =~= v@);
    }
    text::string_of(&v, 0, v.len())
}

// ---------------------------------------------------------------------------
// Message names
// ---------------------------------------------------------------------------

/// `cur` for read mail, `new` for unread - the Maildir convention.
pub open spec fn subdir_of(info: Seq<char>) -> Seq<char> {
    if info.contains('S') {
        "cur"@
    } else {
        "new"@
    }
}

/// `cur` for read mail, `new` for unread - the Maildir convention.
pub fn subdir(flags: &str) -> (r: &'static str)
    ensures
        r@ == subdir_of(flags@),
{
    let v = text::chars_of(flags);
    let mut i: usize = 0;
    while i < v.len()
        invariant
            i <= v@.len(),
            v@ == flags@,
            forall|k: int| 0 <= k < i ==> v@[k] != 'S',
        decreases v@.len() - i,
    {
        if v[i] == 'S' {
            return "cur";
        }
        i = i + 1;
    }
    "new"
}

/// The name of message `uid` of epoch `uv` with the given info letters.
pub open spec fn name_of(uv: u32, uid: u32, info: Seq<char>) -> Seq<char> {
    text::decimal(uv as nat) + "."@ + text::decimal(uid as nat) + ".mailarchive,U="@
        + text::decimal(uid as nat) + ":2,"@ + info
}

/// Maildir file name; the `,U=<uid>` part is what mbsync uses too.
pub fn file_name(uv: u32, uid: u32, flags: &str) -> (r: String)
    ensures
        r@ == name_of(uv, uid, flags@),
{
    let id = text::to_decimal(uid as u128);
    text::to_decimal(uv as u128).concat(".").concat(id.as_str()).concat(".mailarchive,U=").concat(
        id.as_str(),
    ).concat(":2,").concat(flags)
}

/// The UID in a file name: what stands between the first `,U=` and the next `:` or `,U=`.
pub open spec fn uid_of(name: Seq<char>) -> Option<u32> {
    let parts = text::split(name, ",U="@);
    if parts.len() > 1 {
        text::parsed_u32(text::split(parts[1], ":"@)[0])
    } else {
        None
    }
}

/// The UID in a file name, if it holds one.
pub fn uid_in(name: &str) -> (r: Option<u32>)
    ensures
        r == uid_of(name@),
{
    proof {
        reveal_strlit(",U=");
        reveal_strlit(":");
    }
    let parts = text::split_by(name, ",U=");
    if parts.len() > 1 {
        let rest = text::split_by(parts[1].as_str(), ":");
        proof {
            assert(text::views(parts@)[1] == parts@[1]@);
            assert(text::views(rest@)[0] == rest@[0]@);
        }
        text::parse_u32(rest[0].as_str())
    } else {
        None
    }
}

/// A stored message is found again: the UID that went into a file name comes out of it,
/// whatever the epoch and the flags are.
pub proof fn law_uid_reads_back(uv: u32, uid: u32, info: Seq<char>)
    ensures
        uid_of(name_of(uv, uid, info)) == Some(uid),
{
    reveal_strlit(",U=");
    reveal_strlit(":");
    reveal_strlit(".");
    reveal_strlit(".mailarchive,U=");
    reveal_strlit(":2,");
    let mark = ",U="@;
    let v = text::decimal(uv as nat);
    let id = text::decimal(uid as nat);
    let name = name_of(uv, uid, info);
    text::law_decimal_reads_back(uv as nat);
    text::law_decimal_reads_back(uid as nat);
    let head = v + "."@ + id;
    let rest = id + ":2,"@ + info;
    assert(name =~= head + ".mailarchive,U="@ + rest);
    let at = head.len() as int + 12;
    assert(name.subrange(at, at + 3) =~= mark);
    assert forall|j: int| 0 <= j < at implies !text::occurs_at(name, mark, j) by {
        if text::occurs_at(name, mark, j) {
            assert(name.subrange(j, j + 3)[0] == ',');
            assert(name[j] == ',');
            if j < v.len() {
                assert(text::is_digit(v[j]));
            } else if v.len() < j < head.len() {
                assert(text::is_digit(id[j - v.len() - 1]));
            } else if head.len() <= j {
                assert(".mailarchive,U="@[j - head.len()] == ',');
            }
        }
    }
    text::lemma_split_at(name, mark, at);
    assert(name.skip(at + 3) =~= rest);
    let parts = text::split(name, mark);
    let tails = text::split(rest, mark);
    let piece = tails[0];
    assert(parts[1] == piece) by {
        text::law_split_join(rest, mark);
    }
    // the piece starts with the digits and the colon
    let n = id.len() as int;
    assert(piece.len() > n && piece.take(n + 1) == id + ":"@) by {
        if exists|k: int| text::first_at(rest, mark, k) {
            let k = choose|k: int| text::first_at(rest, mark, k);
            text::lemma_split_at(rest, mark, k);
            assert(rest.subrange(k, k + 3)[0] == ',');
            assert(rest[k] == ',');
            if k < n {
                assert(text::is_digit(id[k]));
            }
            assert(k > n);
            assert(rest.take(k).take(n + 1) =~= id + ":"@);
        } else {
            assert(tails =~= seq![rest]);
            assert(rest.take(n + 1) =~= id + ":"@);
        }
    }
    assert(piece[n] == piece.take(n + 1)[n]);
    assert(piece.subrange(n, n + 1) =~= ":"@);
    assert forall|j: int| 0 <= j < n implies !text::occurs_at(piece, ":"@, j) by {
        if text::occurs_at(piece, ":"@, j) {
            assert(piece.subrange(j, j + 1)[0] == ':');
            assert(piece[j] == piece.take(n + 1)[j]);
            assert(text::is_digit(id[j]));
        }
    }
    text::lemma_split_at(piece, ":"@, n);
    assert(piece.take(n) =~= id) by {
        assert(piece.take(n) =~= piece.take(n + 1).take(n));
    }
}

// ---------------------------------------------------------------------------
// Reading back what is stored
// ---------------------------------------------------------------------------

/// The views of the texts in a map.
pub open spec fn texts(m: Map<u32, String>) -> Map<u32, Seq<char>> {
    m.map_values(|s: String| s@)
}

/// `m` with the messages that `names` lists in `dir`/`sub`: UID to path. A name without a UID
/// is passed over, and of two names with the same UID the later one counts.
pub open spec fn with_listed(
    m: Map<u32, Seq<char>>,
    dir: Seq<char>,
    sub: Seq<char>,
    names: Seq<Seq<char>>,
) -> Map<u32, Seq<char>>
    decreases names.len(),
{
    if names.len() == 0 {
        m
    } else {
        let before = with_listed(m, dir, sub, names.drop_last());
        match uid_of(names.last()) {
            Some(uid) => before.insert(
                uid,
                path::joined(path::joined(dir, sub), names.last()),
            ),
            None => before,
        }
    }
}

/// The messages of a Maildir: UID to path, from the file names in `cur` and then in `new`.
pub open spec fn stored(
    dir: Seq<char>,
    cur: Seq<Seq<char>>,
    new: Seq<Seq<char>>,
) -> Map<u32, Seq<char>> {
    with_listed(with_listed(Map::empty(), dir, "cur"@, cur), dir, "new"@, new)
}

/// Adds the messages that `names` lists in `dir`/`sub`.
fn add_listed(m: &mut BTreeMap<u32, String>, dir: &str, sub: &str, names: &Vec<String>)
    ensures
        texts(final(m)@) == with_listed(texts(old(m)@), dir@, sub@, text::views(names@)),
{
    let base = path::join(dir, sub);
    let ghost all = text::views(names@);
    let ghost start = texts(m@);
    let mut i: usize = 0;
    proof {
        assert(all.take(0) =~= Seq::empty());
    }
    while i < names.len()
        invariant
            i <= names@.len(),
            all == text::views(names@),
            base@ == path::joined(dir@, sub@),
            texts(m@) == with_listed(start, dir@, sub@, all.take(i as int)),
        decreases names@.len() - i,
    {
        proof {
            let more = all.take(i + 1);
            assert(more.drop_last() =~= all.take(i as int));
            assert(more.last() == names@[i as int]@);
        }
        let ghost before = m@;
        if let Some(uid) = uid_in(names[i].as_str()) {
            let file = path::join(base.as_str(), names[i].as_str());
            m.insert(uid, file);
            assert(texts(m@) =~= texts(before).insert(uid, file@));
        }
        i = i + 1;
    }
    proof {
        assert(all.take(i as int) =~= all);
    }
}

/// An entry of a directory.
#[derive(Debug)]
pub struct Entry {
    /// Its name, if that is text.
    pub name: Option<String>,
    /// It is a directory itself.
    pub dir: bool,
}

/// The name under which an entry counts: a file counts, and a directory only where its name
/// holds a UID.
pub open spec fn name_listed(e: Entry) -> Option<Seq<char>> {
    match e.name {
        Some(name) => if !e.dir || uid_of(name@) is Some {
            Some(name@)
        } else {
            None
        },
        None => None,
    }
}

/// A file whose name is no text.
pub open spec fn is_unreadable(e: Entry) -> bool {
    !e.dir && e.name is None
}

/// The names that count among the entries of a directory, in their order, and how many more
/// files there are, whose names are no text.
pub fn listing(entries: &Vec<Entry>) -> (r: (Vec<String>, usize))
    ensures
        text::views(r.0@) == entries@.filter_map(|e: Entry| name_listed(e)),
        r.1 == entries@.filter(|e: Entry| is_unreadable(e)).len(),
{
    let ghost f = |e: Entry| name_listed(e);
    let ghost g = |e: Entry| is_unreadable(e);
    let mut names: Vec<String> = Vec::new();
    let mut unreadable: usize = 0;
    let mut i: usize = 0;
    proof {
        assert(entries@.take(0) =~= Seq::empty());
        assert(text::views(names@) =~= entries@.take(0).filter_map(f));
        reveal(Seq::filter);
    }
    while i < entries.len()
        invariant
            i <= entries@.len(),
            f == (|e: Entry| name_listed(e)),
            g == (|e: Entry| is_unreadable(e)),
            unreadable <= i,
            text::views(names@) == entries@.take(i as int).filter_map(f),
            unreadable == entries@.take(i as int).filter(g).len(),
        decreases entries@.len() - i,
    {
        let ghost done = text::views(names@);
        let e = &entries[i];
        proof {
            entries@.lemma_filter_map_take_succ(f, i as int);
            assert(entries@.take(i + 1) =~= entries@.take(i as int).push(*e));
            entries@.take(i as int).lemma_filter_len_push(g, *e);
        }
        match &e.name {
            Some(name) => {
                if !e.dir || uid_in(name.as_str()).is_some() {
                    names.push(name.clone());
                    assert(text::views(names@) =~= done.push(name@));
                }
            },
            None => {
                if !e.dir {
                    unreadable = unreadable + 1;
                }
            },
        }
        i = i + 1;
        assert(text::views(names@) =~= entries@.take(i as int).filter_map(f));
    }
    proof {
        assert(entries@.take(i as int) =~= entries@);
    }
    (names, unreadable)
}

/// uid -> path for all messages in cur/ and new/, given the file names in each.
pub fn scan(dir: &str, cur: &Vec<String>, new: &Vec<String>) -> (r: BTreeMap<u32, String>)
    ensures
        texts(r@) == stored(dir@, text::views(cur@), text::views(new@)),
{
    let mut m: BTreeMap<u32, String> = BTreeMap::new();
    proof {
        assert(texts(m@) =~= Map::empty());
    }
    add_listed(&mut m, dir, "cur", cur);
    add_listed(&mut m, dir, "new", new);
    m
}

/// Every path that a scan reports holds its UID in the file name, in `cur` or in `new`.
pub proof fn law_scan_reports_named_files(
    dir: Seq<char>,
    cur: Seq<Seq<char>>,
    new: Seq<Seq<char>>,
    uid: u32,
)
    requires
        stored(dir, cur, new).contains_key(uid),
    ensures
        ({
            let p = stored(dir, cur, new)[uid];
            ||| exists|i: int|
                0 <= i < cur.len() && uid_of(#[trigger] cur[i]) == Some(uid) && p == path::joined(
                    path::joined(dir, "cur"@),
                    cur[i],
                )
            ||| exists|i: int|
                0 <= i < new.len() && uid_of(#[trigger] new[i]) == Some(uid) && p == path::joined(
                    path::joined(dir, "new"@),
                    new[i],
                )
        }),
{
    let m = with_listed(Map::empty(), dir, "cur"@, cur);
    lemma_listed_source(m, dir, "new"@, new, uid);
    if m.contains_key(uid) {
        lemma_listed_source(Map::empty(), dir, "cur"@, cur, uid);
    }
}

/// Where an entry of a listing comes from.
proof fn lemma_listed_source(
    m: Map<u32, Seq<char>>,
    dir: Seq<char>,
    sub: Seq<char>,
    names: Seq<Seq<char>>,
    uid: u32,
)
    requires
        with_listed(m, dir, sub, names).contains_key(uid),
    ensures
        ({
            let p = with_listed(m, dir, sub, names)[uid];
            ||| m.contains_key(uid) && p == m[uid]
            ||| exists|i: int|
                0 <= i < names.len() && uid_of(#[trigger] names[i]) == Some(uid) && p
                    == path::joined(path::joined(dir, sub), names[i])
        }),
    decreases names.len(),
{
    if names.len() > 0 {
        let front = names.drop_last();
        let k = names.len() - 1;
        if uid_of(names[k]) == Some(uid) {
        } else {
            lemma_listed_source(m, dir, sub, front, uid);
            assert(forall|i: int| 0 <= i < front.len() ==> front[i] == names[i]);
        }
    }
}

/// Every file name that holds a UID is reported: none is lost, though of two names with one
/// UID only one is kept.
pub proof fn law_scan_misses_nothing(
    dir: Seq<char>,
    cur: Seq<Seq<char>>,
    new: Seq<Seq<char>>,
    name: Seq<char>,
    uid: u32,
)
    requires
        cur.contains(name) || new.contains(name),
        uid_of(name) == Some(uid),
    ensures
        stored(dir, cur, new).contains_key(uid),
{
    let m = with_listed(Map::empty(), dir, "cur"@, cur);
    if cur.contains(name) {
        lemma_listed_covers(Map::empty(), dir, "cur"@, cur, uid);
    }
    lemma_listed_covers(m, dir, "new"@, new, uid);
}

/// A listing keeps what was there and holds the UID of every name.
proof fn lemma_listed_covers(
    m: Map<u32, Seq<char>>,
    dir: Seq<char>,
    sub: Seq<char>,
    names: Seq<Seq<char>>,
    uid: u32,
)
    ensures
        m.contains_key(uid) ==> with_listed(m, dir, sub, names).contains_key(uid),
        forall|i: int|
            0 <= i < names.len() && uid_of(#[trigger] names[i]) == Some(uid) ==> with_listed(
                m,
                dir,
                sub,
                names,
            ).contains_key(uid),
    decreases names.len(),
{
    if names.len() > 0 {
        let front = names.drop_last();
        lemma_listed_covers(m, dir, sub, front, uid);
        assert forall|i: int|
            0 <= i < names.len() && uid_of(#[trigger] names[i]) == Some(
                uid,
            ) implies with_listed(m, dir, sub, names).contains_key(uid) by {
            if i < front.len() {
                assert(front[i] == names[i]);
            }
        }
    }
}

// ---------------------------------------------------------------------------
// Folder directories
// ---------------------------------------------------------------------------

/// The directories of a Maildir at `dir`.
pub fn create(dir: &str) -> (r: Vec<String>)
    ensures
        text::views(r@) == seq![
            path::joined(dir@, "cur"@),
            path::joined(dir@, "new"@),
            path::joined(dir@, "tmp"@),
        ],
{
    let mut r: Vec<String> = Vec::new();
    r.push(path::join(dir, "cur"));
    r.push(path::join(dir, "new"));
    r.push(path::join(dir, "tmp"));
    proof {
        assert(text::views(r@) =~= seq![
            path::joined(dir@, "cur"@),
            path::joined(dir@, "new"@),
            path::joined(dir@, "tmp"@),
        ]);
    }
    r
}

/// The delimiter between the levels of a folder name; a flat namespace nests on `/`.
pub open spec fn delimiter(delim: Option<Seq<char>>) -> Seq<char> {
    match delim {
        Some(d) if d.len() > 0 => d,
        _ => "/"@,
    }
}

/// The directory that `levels` lead to, starting at `root`.
pub open spec fn below(root: Seq<char>, levels: Seq<Seq<char>>) -> Seq<char>
    decreases levels.len(),
{
    if levels.len() == 0 {
        root
    } else {
        path::joined(below(root, levels.drop_last()), levels.last())
    }
}

pub open spec fn all_plain(levels: Seq<Seq<char>>) -> bool {
    forall|i: int| 0 <= i < levels.len() ==> path::plain(#[trigger] levels[i])
}

/// The directory of a folder: one level below `root` per level of its name, or none where a
/// level is empty, `.`, `..` or holds a `/`.
pub open spec fn folder_dir(
    root: Seq<char>,
    name: Seq<char>,
    delim: Option<Seq<char>>,
) -> Option<Seq<char>> {
    let levels = text::split(name, delimiter(delim));
    if all_plain(levels) {
        Some(below(root, levels))
    } else {
        None
    }
}

/// The view of an optional text.
pub open spec fn opt_view(s: Option<&str>) -> Option<Seq<char>> {
    match s {
        Some(t) => Some(t@),
        None => None,
    }
}

/// Whether `c` can be one directory level.
fn is_plain(c: &str) -> (r: bool)
    ensures
        r == path::plain(c@),
{
    proof {
        reveal_strlit(".");
        reveal_strlit("..");
        assert("."@ =~= seq!['.']);
        assert(".."@ =~= seq!['.', '.']);
    }
    if c.is_empty() || text::same(c, ".") || text::same(c, "..") {
        return false;
    }
    let v = text::chars_of(c);
    let mut i: usize = 0;
    while i < v.len()
        invariant
            i <= v@.len(),
            v@ == c@,
            forall|k: int| 0 <= k < i ==> v@[k] != '/',
        decreases v@.len() - i,
    {
        if v[i] == '/' {
            assert(c@.contains(v@[i as int]));
            return false;
        }
        i = i + 1;
    }
    true
}

/// Turn an IMAP folder name into a path below `root`, one directory per hierarchy level.
/// A flat namespace (no delimiter) nests on `/`, since that cannot be a directory name
/// anyway. Both name and delimiter come from the server and must never steer writes out
/// of the Maildir or onto another folder's directory, so a name with an empty, `.`, `..`,
/// absolute, or slash-containing component is rejected (`None`) instead of silently
/// folded onto a neighbour.
pub fn folder_path(root: &str, name: &str, delim: Option<&str>) -> (r: Option<String>)
    ensures
        match r {
            Some(p) => folder_dir(root@, name@, opt_view(delim)) == Some(p@),
            None => folder_dir(root@, name@, opt_view(delim)) is None,
        },
{
    let mut by: &str = "/";
    if let Some(d) = delim {
        if !d.is_empty() {
            by = d;
        }
    }
    proof {
        reveal_strlit("/");
    }
    let levels = text::split_by(name, by);
    let ghost all = text::views(levels@);
    let mut p = root.to_owned();
    let mut i: usize = 0;
    proof {
        assert(all.take(0) =~= Seq::empty());
    }
    while i < levels.len()
        invariant
            i <= levels@.len(),
            all == text::views(levels@),
            all == text::split(name@, delimiter(opt_view(delim))),
            forall|k: int| 0 <= k < i ==> path::plain(#[trigger] all[k]),
            p@ == below(root@, all.take(i as int)),
        decreases levels@.len() - i,
    {
        proof {
            assert(all[i as int] == levels@[i as int]@);
            assert(all.take(i + 1).drop_last() =~= all.take(i as int));
        }
        if !is_plain(levels[i].as_str()) {
            return None;
        }
        p = path::join(p.as_str(), levels[i].as_str());
        i = i + 1;
    }
    proof {
        assert(all.take(i as int) =~= all);
    }
    Some(p)
}

/// The components of a directory below `root` are those of `root` and then the levels.
proof fn lemma_below_components(root: Seq<char>, levels: Seq<Seq<char>>)
    requires
        all_plain(levels),
    ensures
        path::components(below(root, levels)) == path::components(root) + levels,
    decreases levels.len(),
{
    if levels.len() == 0 {
        assert(path::components(root) + levels =~= path::components(root));
    } else {
        let front = levels.drop_last();
        assert forall|i: int| 0 <= i < front.len() implies path::plain(#[trigger] front[i]) by {
            assert(front[i] == levels[i]);
        }
        lemma_below_components(root, front);
        assert(path::plain(levels[levels.len() - 1]));
        path::law_join_adds_component(below(root, front), levels.last());
        assert(path::components(root) + levels =~= (path::components(root) + front).push(
            levels.last(),
        ));
    }
}

/// A folder's directory lies strictly below the root: it has the components of the root and
/// after them only plain names, at least one, so nothing in it leads back up.
pub proof fn law_folder_stays_below_root(
    root: Seq<char>,
    name: Seq<char>,
    delim: Option<Seq<char>>,
)
    requires
        folder_dir(root, name, delim) is Some,
    ensures
        ({
            let levels = text::split(name, delimiter(delim));
            let dir = folder_dir(root, name, delim)->0;
            &&& levels.len() > 0
            &&& all_plain(levels)
            &&& path::components(dir) == path::components(root) + levels
            &&& dir != root
        }),
{
    reveal_strlit("/");
    let levels = text::split(name, delimiter(delim));
    text::law_split_join(name, delimiter(delim));
    lemma_below_components(root, levels);
    let dir = below(root, levels);
    assert(path::components(dir).len() == path::components(root).len() + levels.len());
}

/// Two folders of one namespace never share a directory: under the same delimiter, different
/// names lead to paths with different components.
pub proof fn law_folders_do_not_collide(
    root: Seq<char>,
    a: Seq<char>,
    b: Seq<char>,
    delim: Option<Seq<char>>,
)
    requires
        folder_dir(root, a, delim) is Some,
        folder_dir(root, b, delim) is Some,
        a != b,
    ensures
        path::components(folder_dir(root, a, delim)->0) != path::components(
            folder_dir(root, b, delim)->0,
        ),
        folder_dir(root, a, delim) != folder_dir(root, b, delim),
{
    reveal_strlit("/");
    let d = delimiter(delim);
    let x = text::split(a, d);
    let y = text::split(b, d);
    text::law_split_join(a, d);
    text::law_split_join(b, d);
    law_folder_stays_below_root(root, a, delim);
    law_folder_stays_below_root(root, b, delim);
    let c = path::components(root);
    if c + x == c + y {
        assert((c + x).skip(c.len() as int) =~= x);
        assert((c + y).skip(c.len() as int) =~= y);
    }
}

// ---------------------------------------------------------------------------
// Message dates
// ---------------------------------------------------------------------------

/// How a unix timestamp lies to 1970: whether at or after it, and how many seconds away.
pub open spec fn distance_of(secs: i64) -> (bool, u64) {
    if secs >= 0 {
        (true, secs as u64)
    } else {
        (false, (-secs) as u64)
    }
}

/// The seconds of a distance as a signed number, by two's complement.
pub open spec fn signed(secs: u64) -> int {
    if secs <= i64::MAX {
        secs as int
    } else {
        secs - 0x1_0000_0000_0000_0000
    }
}

/// The unix timestamp at a distance to 1970.
pub open spec fn timestamp_of(distance: (bool, u64)) -> int {
    if distance.0 {
        signed(distance.1)
    } else {
        -signed(distance.1)
    }
}

/// How a unix timestamp lies to 1970: whether at or after it, and how many seconds away.
/// Timestamps before 1970 (a mail with a bogus date) work too.
pub fn times(secs: i64) -> (r: (bool, u64))
    ensures
        r == distance_of(secs),
        r.0 == (secs >= 0),
        r.1 == (if secs >= 0 {
            secs as int
        } else {
            -secs
        }),
{
    if secs >= 0 {
        (true, secs as u64)
    } else if secs == i64::MIN {
        (false, 9223372036854775808)
    } else {
        (false, (-secs) as u64)
    }
}

/// mtime of a message as a unix timestamp, from its distance to 1970 in whole seconds, and
/// `None` if it cannot be read. The one distance before 1970 whose negation is no `i64` is
/// left out.
pub fn mtime(distance: Option<(bool, u64)>) -> (r: Option<i64>)
    requires
        distance != Some((false, 0x8000_0000_0000_0000u64)),
    ensures
        distance is None ==> r is None,
        distance is Some ==> r is Some && r->0 == timestamp_of(distance->0),
        distance matches Some((after, n)) ==> n <= i64::MAX ==> r->0 == (if after {
            n as int
        } else {
            -n
        }),
{
    match distance {
        Some((after, secs)) => {
            let n: i64 = if secs <= 9223372036854775807 {
                secs as i64
            } else {
                (secs - 9223372036854775808) as i64 + i64::MIN
            };
            if after {
                Some(n)
            } else {
                Some(-n)
            }
        },
        None => None,
    }
}

/// A date set on a message is read back, also one before 1970. Left out is the single
/// timestamp whose distance to 1970 is no `i64`.
pub proof fn law_date_reads_back(secs: i64)
    requires
        secs != i64::MIN,
    ensures
        timestamp_of(distance_of(secs)) == secs,
{
}

// ---------------------------------------------------------------------------
// What these functions mean
// ---------------------------------------------------------------------------

/// The models of optional texts and of maps of texts show every text.
pub proof fn law_models_show_every_text(t: &str, m: Map<u32, String>, uid: u32)
    ensures
        opt_view(Some(t)) == Some(t@),
        opt_view(None) is None,
        texts(m).contains_key(uid) <==> m.contains_key(uid),
        m.contains_key(uid) ==> texts(m)[uid] == m[uid]@,
{
}

/// A letter occurs as often as there are flags that have it.
proof fn lemma_letter_count(flags: Seq<Flag>, c: char, p: spec_fn(Flag) -> bool)
    requires
        forall|f: Flag| #[trigger] p(f) <==> letter_of(f) == Some(c),
    ensures
        letters_of(flags).to_multiset().count(c) == flags.filter(p).len(),
    decreases flags.len(),
{
    broadcast use vstd::seq_lib::group_to_multiset_ensures;

    let g = |x: Flag| letter_of(x);
    reveal(Seq::filter);
    if flags.len() == 0 {
        assert(letters_of(flags) =~= Seq::empty());
    } else {
        let n = flags.len() - 1;
        let front = flags.drop_last();
        lemma_letter_count(front, c, p);
        flags.lemma_filter_map_take_succ(g, n as int);
        assert(flags.take(n + 1) =~= flags);
        assert(flags.take(n as int) =~= front);
        let before = letters_of(front);
        match letter_of(flags.last()) {
            Some(l) => {
                assert(letters_of(flags) =~= before.push(l));
                vstd::seq_lib::to_multiset_build(before, l);
            },
            None => {
                assert(letters_of(flags) =~= before);
            },
        }
        assert(p(flags.last()) <==> letter_of(flags.last()) == Some(c));
    }
}

/// The info letters of a message tell its flags: each of the five letters stands there as often
/// as its flag is set, in the order of the alphabet, and nothing else does.
pub proof fn law_info_tells_every_flag(flags: Seq<Flag>)
    ensures
        ({
            let info = info_of(flags);
            let m = info.to_multiset();
            &&& m.count('D') == flags.filter(|f: Flag| f is Draft).len()
            &&& m.count('F') == flags.filter(|f: Flag| f is Flagged).len()
            &&& m.count('R') == flags.filter(|f: Flag| f is Answered).len()
            &&& m.count('S') == flags.filter(|f: Flag| f is Seen).len()
            &&& m.count('T') == flags.filter(|f: Flag| f is Deleted).len()
            &&& forall|i: int|
                0 <= i < info.len() ==> {
                    ||| #[trigger] info[i] == 'D'
                    ||| info[i] == 'F'
                    ||| info[i] == 'R'
                    ||| info[i] == 'S'
                    ||| info[i] == 'T'
                }
            &&& forall|i: int, j: int| 0 <= i < j < info.len() ==> info[i] <= info[j]
        }),
{
    broadcast use vstd::seq_lib::group_to_multiset_ensures;

    let info = info_of(flags);
    law_info_exists(flags);
    lemma_letter_count(flags, 'D', |f: Flag| f is Draft);
    lemma_letter_count(flags, 'F', |f: Flag| f is Flagged);
    lemma_letter_count(flags, 'R', |f: Flag| f is Answered);
    lemma_letter_count(flags, 'S', |f: Flag| f is Seen);
    lemma_letter_count(flags, 'T', |f: Flag| f is Deleted);
    assert forall|i: int| 0 <= i < info.len() implies {
        ||| #[trigger] info[i] == 'D'
        ||| info[i] == 'F'
        ||| info[i] == 'R'
        ||| info[i] == 'S'
        ||| info[i] == 'T'
    } by {
        assert(info.contains(info[i]));
        assert(info.to_multiset().count(info[i]) > 0);
        assert(letters_of(flags).contains(info[i]));
        flags.lemma_filter_map_contains(|x: Flag| letter_of(x), info[i]);
    }
}

/// Read mail lies in `cur`, all other in `new`.
pub proof fn law_read_mail_lies_in_cur(flags: Seq<Flag>)
    ensures
        (exists|i: int| 0 <= i < flags.len() && #[trigger] flags[i] is Seen) ==> subdir_of(
            info_of(flags),
        ) == "cur"@,
        (forall|i: int| 0 <= i < flags.len() ==> !(#[trigger] flags[i] is Seen)) ==> subdir_of(
            info_of(flags),
        ) == "new"@,
        forall|info: Seq<char>| #[trigger]
            subdir_of(info) == (if info.contains('S') {
                "cur"@
            } else {
                "new"@
            }),
{
    broadcast use vstd::seq_lib::group_to_multiset_ensures;

    let info = info_of(flags);
    let p = |f: Flag| f is Seen;
    law_info_tells_every_flag(flags);
    if exists|i: int| 0 <= i < flags.len() && #[trigger] flags[i] is Seen {
        let i = choose|i: int| 0 <= i < flags.len() && #[trigger] flags[i] is Seen;
        flags.lemma_filter_contains(p, i);
        assert(info.contains('S'));
    }
    if info.contains('S') {
        assert(flags.filter(p).len() > 0);
        let x = flags.filter(p)[0];
        flags.lemma_filter_pred(p, 0);
        flags.lemma_filter_contains_rev(p, x);
        let i = choose|i: int| 0 <= i < flags.len() && flags[i] == x;
        assert(flags[i] is Seen);
    }
}

/// The flags read back from a file name: what stands behind the first `:2,` is exactly the info,
/// and what stands before it tells the epoch and the UID.
pub proof fn law_flags_read_back(uv: u32, uid: u32, info: Seq<char>)
    ensures
        ({
            let name = name_of(uv, uid, info);
            exists|k: int|
                {
                    &&& 0 <= k && k + 3 <= name.len()
                    &&& #[trigger] name.subrange(k, k + 3) == ":2,"@
                    &&& forall|j: int| 0 <= j < k ==> #[trigger] name.subrange(j, j + 3) != ":2,"@
                    &&& name.skip(k + 3) == info
                    &&& name.take(k) == text::decimal(uv as nat) + "."@ + text::decimal(uid as nat)
                        + ".mailarchive,U="@ + text::decimal(uid as nat)
                }
        }),
{
    reveal_strlit(".");
    reveal_strlit(".mailarchive,U=");
    reveal_strlit(":2,");
    let a = text::decimal(uv as nat);
    let b = text::decimal(uid as nat);
    text::law_decimal_reads_back(uv as nat);
    text::law_decimal_reads_back(uid as nat);
    let name = name_of(uv, uid, info);
    let p1 = a + "."@;
    let p2 = p1 + b;
    let p3 = p2 + ".mailarchive,U="@;
    let head = p3 + b;
    let k = head.len() as int;
    assert(name =~= head + ":2,"@ + info);
    assert(name.subrange(k, k + 3) =~= ":2,"@);
    assert(name.skip(k + 3) =~= info);
    assert(name.take(k) =~= head);
    assert forall|j: int| 0 <= j < k implies #[trigger] name.subrange(j, j + 3) != ":2,"@ by {
        assert(name.subrange(j, j + 3)[0] == name[j]);
        if j < a.len() {
            assert(text::is_digit(a[j]));
        } else if j < p1.len() {
        } else if j < p2.len() {
            assert(text::is_digit(b[j - p1.len()]));
        } else if j < p3.len() {
            assert(name[j] == ".mailarchive,U="@[j - p2.len()]);
        } else {
            assert(text::is_digit(b[j - p3.len()]));
        }
    }
}

/// Two names are the same only if epoch, UID and info are.
pub proof fn law_names_tell_messages_apart(
    uv: u32,
    uid: u32,
    info: Seq<char>,
    other_uv: u32,
    other_uid: u32,
    other_info: Seq<char>,
)
    requires
        name_of(uv, uid, info) == name_of(other_uv, other_uid, other_info),
    ensures
        uv == other_uv,
        uid == other_uid,
        info == other_info,
{
    let name = name_of(uv, uid, info);
    law_uid_reads_back(uv, uid, info);
    law_uid_reads_back(other_uv, other_uid, other_info);
    law_flags_read_back(uv, uid, info);
    law_flags_read_back(other_uv, other_uid, other_info);
    let tail = "."@ + text::decimal(uid as nat) + ".mailarchive,U="@ + text::decimal(uid as nat);
    let a = text::decimal(uv as nat);
    let b = text::decimal(other_uv as nat);
    let k = choose|k: int|
        {
            &&& 0 <= k && k + 3 <= name.len()
            &&& #[trigger] name.subrange(k, k + 3) == ":2,"@
            &&& forall|j: int| 0 <= j < k ==> #[trigger] name.subrange(j, j + 3) != ":2,"@
            &&& name.skip(k + 3) == info
            &&& name.take(k) == a + "."@ + text::decimal(uid as nat) + ".mailarchive,U="@
                + text::decimal(uid as nat)
        };
    let l = choose|k: int|
        {
            &&& 0 <= k && k + 3 <= name.len()
            &&& #[trigger] name.subrange(k, k + 3) == ":2,"@
            &&& forall|j: int| 0 <= j < k ==> #[trigger] name.subrange(j, j + 3) != ":2,"@
            &&& name.skip(k + 3) == other_info
            &&& name.take(k) == b + "."@ + text::decimal(uid as nat) + ".mailarchive,U="@
                + text::decimal(uid as nat)
        };
    assert(k == l) by {
        if k < l {
            assert(name.subrange(k, k + 3) != ":2,"@);
        }
        if l < k {
            assert(name.subrange(l, l + 3) != ":2,"@);
        }
    }
    assert(name.take(k) =~= a + tail);
    assert(name.take(k) =~= b + tail);
    assert(a.len() == b.len());
    assert((a + tail).take(a.len() as int) =~= a);
    assert((b + tail).take(b.len() as int) =~= b);
    text::law_decimal_reads_back(uv as nat);
    text::law_decimal_reads_back(other_uv as nat);
}

/// The UID stands behind the first `,U=`, up to a `:`, another `,U=` or the end, whoever made the
/// name; what stands there is the number and nothing else.
pub proof fn law_uid_stands_behind_the_mark(a: Seq<char>, d: Seq<char>, rest: Seq<char>)
    requires
        forall|j: int|
            0 <= j < a.len() ==> #[trigger] (a + ",U="@ + (d + rest)).subrange(j, j + 3) != ",U="@,
        forall|i: int| 0 <= i < d.len() ==> #[trigger] d[i] != ':',
        forall|j: int|
            0 <= j < d.len() && j + 3 <= (d + rest).len() ==> #[trigger] (d + rest).subrange(
                j,
                j + 3,
            ) != ",U="@,
        rest.len() == 0 || rest[0] == ':' || (rest.len() >= 3 && rest.take(3) == ",U="@),
    ensures
        uid_of(a + ",U="@ + (d + rest)) == text::parsed_u32(d),
{
    reveal_strlit(",U=");
    reveal_strlit(":");
    let mark = ",U="@;
    let tail = d + rest;
    let name = a + mark + tail;
    text::law_split_at_the_leftmost(a, mark, tail);
    text::law_split_join(tail, mark);
    let tails = text::split(tail, mark);
    let piece = tails[0];
    let n = d.len() as int;
    assert(text::split(name, mark)[1] == piece);
    // the piece is the number, and behind it nothing or a colon
    assert(piece.len() >= n && piece.take(n) == d && (piece.len() > n ==> piece[n] == ':')) by {
        if exists|k: int| text::first_at(tail, mark, k) {
            let k = choose|k: int| text::first_at(tail, mark, k);
            text::lemma_split_at(tail, mark, k);
            assert(tail.subrange(k, k + 3) == mark);
            assert(k >= n);
            assert(piece == tail.take(k));
            assert(tail.take(k).take(n) =~= d);
            if k > n {
                assert(rest[0] == tail[n]);
                if rest[0] != ':' {
                    assert(tail.subrange(n, n + 3) =~= rest.take(3));
                    assert(text::occurs_at(tail, mark, n));
                }
            }
        } else {
            assert(tails =~= seq![tail]);
            assert(tail.take(n) =~= d);
            if rest.len() > 0 {
                assert(rest[0] == tail[n]);
                if rest[0] != ':' {
                    assert(tail.subrange(n, n + 3) =~= rest.take(3));
                    assert(text::occurs_at(tail, mark, n));
                    assert(!text::occurs_at(piece, mark, n));
                }
            }
        }
    }
    let colon = ":"@;
    if piece.len() > n {
        let more = piece.skip(n + 1);
        assert(piece =~= d + colon + more);
        assert forall|j: int| 0 <= j < n implies #[trigger] (d + colon + more).subrange(j, j + 1)
            != colon by {
            assert((d + colon + more).subrange(j, j + 1)[0] == d[j]);
        }
        text::law_split_at_the_leftmost(d, colon, more);
    } else {
        assert(piece =~= d);
        assert forall|j: int| 0 <= j && j + 1 <= d.len() implies #[trigger] d.subrange(j, j + 1)
            != colon by {
            assert(d.subrange(j, j + 1)[0] == d[j]);
        }
        text::law_unsplit_without_delimiter(d, colon);
    }
}

/// A name without `,U=` holds no UID.
pub proof fn law_no_mark_no_uid(name: Seq<char>)
    requires
        forall|j: int|
            0 <= j && j + 3 <= name.len() ==> #[trigger] name.subrange(j, j + 3) != ",U="@,
    ensures
        uid_of(name) is None,
{
    reveal_strlit(",U=");
    text::law_unsplit_without_delimiter(name, ",U="@);
}

/// What a listing makes of a UID: the last name that holds it counts, and without one what was
/// there before stays.
proof fn lemma_last_listed(
    m: Map<u32, Seq<char>>,
    dir: Seq<char>,
    sub: Seq<char>,
    names: Seq<Seq<char>>,
    uid: u32,
    i: int,
)
    requires
        -1 <= i < names.len(),
        i >= 0 ==> uid_of(names[i]) == Some(uid),
        forall|j: int| i < j < names.len() ==> uid_of(#[trigger] names[j]) != Some(uid),
    ensures
        ({
            let now = with_listed(m, dir, sub, names);
            if i >= 0 {
                now.contains_key(uid) && now[uid] == path::joined(path::joined(dir, sub), names[i])
            } else {
                &&& now.contains_key(uid) <==> m.contains_key(uid)
                &&& m.contains_key(uid) ==> now[uid] == m[uid]
            }
        }),
    decreases names.len(),
{
    if names.len() > 0 {
        let front = names.drop_last();
        let n = names.len() - 1;
        if i < n {
            assert(uid_of(names[n]) != Some(uid));
            assert forall|j: int| i < j < front.len() implies uid_of(#[trigger] front[j]) != Some(
                uid,
            ) by {
                assert(front[j] == names[j]);
            }
            lemma_last_listed(m, dir, sub, front, uid, i);
        }
    }
}

/// Where a message is found: a name in `new` counts before one in `cur`, and of several names in
/// one directory the last. A UID that no name holds is not stored.
pub proof fn law_scan_takes_the_last_name(
    dir: Seq<char>,
    cur: Seq<Seq<char>>,
    new: Seq<Seq<char>>,
    uid: u32,
    in_cur: int,
    in_new: int,
)
    requires
        -1 <= in_cur < cur.len(),
        in_cur >= 0 ==> uid_of(cur[in_cur]) == Some(uid),
        forall|j: int| in_cur < j < cur.len() ==> uid_of(#[trigger] cur[j]) != Some(uid),
        -1 <= in_new < new.len(),
        in_new >= 0 ==> uid_of(new[in_new]) == Some(uid),
        forall|j: int| in_new < j < new.len() ==> uid_of(#[trigger] new[j]) != Some(uid),
    ensures
        ({
            let found = stored(dir, cur, new);
            &&& found.contains_key(uid) <==> in_cur >= 0 || in_new >= 0
            &&& in_new >= 0 ==> found[uid] == path::joined(path::joined(dir, "new"@), new[in_new])
            &&& in_new < 0 && in_cur >= 0 ==> found[uid] == path::joined(
                path::joined(dir, "cur"@),
                cur[in_cur],
            )
        }),
{
    lemma_last_listed(Map::empty(), dir, "cur"@, cur, uid, in_cur);
    lemma_last_listed(
        with_listed(Map::empty(), dir, "cur"@, cur),
        dir,
        "new"@,
        new,
        uid,
        in_new,
    );
}

/// Every file with a readable name is listed under it, a directory only with a UID in its name,
/// and every other file is counted.
pub proof fn law_every_file_counts(e: Entry)
    ensures
        !e.dir && e.name is Some ==> name_listed(e) == Some(e.name->0@),
        e.dir && e.name is Some ==> name_listed(e) == (if uid_of(e.name->0@) is Some {
            Some(e.name->0@)
        } else {
            None
        }),
        e.name is None ==> name_listed(e) is None,
        is_unreadable(e) <==> e.name is None && !e.dir,
{
}

/// The text of a directory below another.
proof fn lemma_below_text(root: Seq<char>, levels: Seq<Seq<char>>)
    requires
        root.len() > 0,
        root.last() != '/',
        levels.len() > 0,
        all_plain(levels),
    ensures
        below(root, levels) == root + seq!['/'] + text::join(levels, seq!['/']),
    decreases levels.len(),
{
    let slash = seq!['/'];
    let last = levels.last();
    let front = levels.drop_last();
    assert(path::plain(levels[levels.len() - 1]));
    assert(last.contains(last[0]));
    assert(last.contains(last.last()));
    if front.len() == 0 {
        assert(levels =~= seq![last]);
        assert(below(root, front) == root);
        assert(text::join(levels, slash) == last);
        assert(below(root, levels) =~= root + slash + last);
    } else {
        assert forall|i: int| 0 <= i < front.len() implies path::plain(#[trigger] front[i]) by {
            assert(front[i] == levels[i]);
        }
        lemma_below_text(root, front);
        let before = below(root, front);
        assert(before.last() != '/') by {
            let l = front.last();
            assert(path::plain(front[front.len() - 1]));
            assert(l.contains(l.last()));
            if front.len() == 1 {
                assert(front =~= seq![l]);
                assert(text::join(front, slash) == l);
            } else {
                assert(front =~= front.drop_last().push(l));
                text::lemma_join_push(front.drop_last(), l, slash);
            }
            assert(before.last() == l.last());
        }
        assert(levels =~= front.push(last));
        text::lemma_join_push(front, last, slash);
        assert(below(root, levels) =~= root + slash + text::join(levels, slash));
    }
}

/// Every folder gets its directory: one level per level of its name, below the root, unless a
/// level is empty, `.` or `..` or holds a `/`. The levels are what the delimiter separates, and
/// without a delimiter what `/` does.
pub proof fn law_every_usable_folder_gets_its_directory(
    root: Seq<char>,
    name: Seq<char>,
    delim: Option<Seq<char>>,
    by: Seq<char>,
)
    requires
        delim is Some && delim->0.len() > 0 ==> by == delim->0,
        delim is None || delim->0.len() == 0 ==> by == seq!['/'],
    ensures
        ({
            let levels = text::split(name, by);
            let usable = forall|i: int|
                0 <= i < levels.len() ==> {
                    &&& (#[trigger] levels[i]).len() > 0
                    &&& levels[i] != seq!['.']
                    &&& levels[i] != seq!['.', '.']
                    &&& !levels[i].contains('/')
                };
            let dir = folder_dir(root, name, delim);
            &&& dir is Some <==> usable
            &&& usable ==> path::components(dir->0) == path::components(root) + levels
            &&& usable && root.len() > 0 && root.last() != '/' ==> dir->0 == root + seq!['/']
                + text::join(levels, seq!['/'])
        }),
{
    reveal_strlit("/");
    assert("/"@ =~= seq!['/']);
    assert(by == delimiter(delim));
    let levels = text::split(name, by);
    text::law_split_join(name, by);
    let usable = forall|i: int|
        0 <= i < levels.len() ==> {
            &&& (#[trigger] levels[i]).len() > 0
            &&& levels[i] != seq!['.']
            &&& levels[i] != seq!['.', '.']
            &&& !levels[i].contains('/')
        };
    if all_plain(levels) {
        assert forall|i: int| 0 <= i < levels.len() implies {
            &&& (#[trigger] levels[i]).len() > 0
            &&& levels[i] != seq!['.']
            &&& levels[i] != seq!['.', '.']
            &&& !levels[i].contains('/')
        } by {
            assert(path::plain(levels[i]));
        }
        lemma_below_components(root, levels);
        if root.len() > 0 && root.last() != '/' {
            lemma_below_text(root, levels);
        }
    }
    if usable {
        assert forall|i: int| 0 <= i < levels.len() implies path::plain(#[trigger] levels[i]) by {
            assert(levels[i].len() > 0);
        }
    }
}

/// Dates by their distance to 1970: up to the largest timestamp on either side, and beyond it by
/// two's complement.
pub proof fn law_dates_by_distance(secs: i64, n: u64)
    ensures
        secs >= 0 ==> distance_of(secs) == (true, secs as u64),
        i64::MIN < secs < 0 ==> distance_of(secs) == (false, (-secs) as u64),
        n <= i64::MAX ==> timestamp_of((true, n)) == n && timestamp_of((false, n)) == -n,
        n > i64::MAX ==> timestamp_of((true, n)) == n - 0x1_0000_0000_0000_0000 && timestamp_of(
            (false, n),
        ) == 0x1_0000_0000_0000_0000 - n,
{
}

} // verus!

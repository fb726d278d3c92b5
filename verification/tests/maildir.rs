//! Names of messages and folders, and what a scan reads back.

use mailarchive::maildir::{
    create, file_name, flags_of, folder_path, listing, mtime, scan, subdir, times, uid_in, Entry, Flag,
};
use mailarchive::path;
use std::path::Path;

#[test]
fn names_and_flags() {
    assert_eq!(file_name(100, 7, "S"), "100.7.mailarchive,U=7:2,S");
    assert_eq!(flags_of(&[Flag::Seen, Flag::Answered]), "RS", "info letters are sorted");
    assert_eq!(flags_of(&[Flag::Recent]), "", "non-maildir flags are dropped");
    assert_eq!((subdir("S"), subdir("")), ("cur", "new"));
}

#[test]
fn folder_paths_stay_below_the_root_or_are_rejected() {
    let root = "/m/acct";
    let ok = |n, d| folder_path(root, n, d).unwrap();
    assert_eq!(Path::new(&ok("Archive/2024", Some("/"))), Path::new("/m/acct/Archive/2024"));
    assert_eq!(Path::new(&ok("Archive.2024", Some("."))), Path::new("/m/acct/Archive/2024"));
    assert_eq!(Path::new(&ok("a/b", None)), Path::new("/m/acct/a/b"), "flat namespace nests on '/'");
    assert_eq!(Path::new(&ok("a/b", Some(""))), Path::new("/m/acct/a/b"), "empty delimiter = flat");
    // anything that would leave the root, land on the root itself, or need a '/' inside
    // one directory name is refused, never folded onto a neighbour
    for (n, d) in [("../../etc", Some("/")), ("/abs/x", Some("/")), ("..", Some("/")), (".", Some("/")),
                   ("INBOX/..", Some("/")), ("", Some("/")), ("a//b", Some("/")), ("a/b", Some("."))] {
        assert!(folder_path(root, n, d).is_none(), "{n:?} with {d:?}");
    }
}

#[test]
fn a_slash_at_the_end_of_a_level_is_not_folded_away() {
    for (n, d) in [("a/", Some(".")), ("a/.b", Some(".")), ("a//", Some("|")), ("a/./", Some("|"))] {
        assert!(folder_path("/m", n, d).is_none(), "{n:?} with {d:?}");
    }
    assert_eq!(folder_path("/m", "a|..b", Some("|")).unwrap(), "/m/a/..b");
    assert_eq!(folder_path("/m/", "a<>b", Some("<>")).unwrap(), "/m/a/b");
    assert_eq!(folder_path("", "a", None).unwrap(), "a");
}

#[test]
fn every_flag_with_a_letter_is_mapped() {
    let all = [Flag::Deleted, Flag::Seen, Flag::Draft, Flag::Flagged, Flag::MayCreate, Flag::Answered];
    assert_eq!(flags_of(&all), "DFRST");
    assert_eq!(flags_of(&[Flag::Custom("S".to_string()), Flag::Draft]), "D");
    assert_eq!(flags_of(&[Flag::Seen, Flag::Draft, Flag::Seen]), "DSS", "a repeated flag is repeated");
    assert_eq!(subdir("DFRT"), "new");
    assert_eq!(subdir("DFRST"), "cur");
}

#[test]
fn the_uid_of_a_name_is_read_back() {
    for uid in [0, 1, 9, 10, 42, 4_294_967_295] {
        for flags in ["", "S", "DFRST", "U=9", ":2,S"] {
            assert_eq!(uid_in(&file_name(100, uid, flags)), Some(uid), "{uid} {flags}");
        }
    }
    assert_eq!(uid_in("1693000000.1_1.host,U=1:2,S"), Some(1));
    assert_eq!(uid_in("1693000000.1_1.host,U=+17"), Some(17));
    assert_eq!(uid_in("x,U=007:2,"), Some(7));
    for none in ["", "plain", "x,U=", "x,U=:2,", "x,U=12a:2,", "x,U=-1:2,", "x,U=4294967296:2,", "x,U= 1", "x,U=+"] {
        assert_eq!(uid_in(none), None, "{none:?}");
    }
    assert_eq!(uid_in("x,U=1,U=2:2,"), Some(1), "the first mark counts");
}

#[test]
fn a_scan_maps_uids_to_paths() {
    let names = |v: &[&str]| v.iter().map(|s| s.to_string()).collect::<Vec<String>>();
    let m = scan("/m", &names(&["1.5.mailarchive,U=5:2,S", "note", "a,U=6:2,S"]), &names(&["b,U=6:2,", ".hidden"]));
    assert_eq!(m.keys().copied().collect::<Vec<u32>>(), vec![5, 6]);
    assert_eq!(m[&5], "/m/cur/1.5.mailarchive,U=5:2,S");
    assert_eq!(m[&6], "/m/new/b,U=6:2,", "of two files with one UID the later one counts");
    assert!(scan("/m", &vec![], &vec![]).is_empty());
}

#[test]
fn a_maildir_has_three_directories() {
    assert_eq!(create("/m/x"), vec!["/m/x/cur", "/m/x/new", "/m/x/tmp"]);
}

#[test]
fn dates_survive_on_both_sides_of_the_epoch() {
    for secs in [0, 1, 1_600_000_000, -1, -86_400, i64::MAX, i64::MIN + 1] {
        assert_eq!(mtime(Some(times(secs))), Some(secs));
    }
    assert_eq!(times(-86_400), (false, 86_400));
    assert_eq!(times(i64::MIN), (false, 9_223_372_036_854_775_808));
    assert_eq!(mtime(None), None);
}

#[test]
fn parents_are_those_of_the_standard_library() {
    for p in ["/m/cur/x", "a/b", "/a", "a/./b", "a//b/", "../x", "./a/b", "a/b/..", "/a/b/./", "//a//b"] {
        assert_eq!(Path::new(&path::parent(p)), Path::new(p).parent().unwrap(), "{p}");
    }
    for p in ["", "/", "a", ".", "..", "a/", "//", "./"] {
        assert_eq!(path::parent(p), ".", "{p:?}");
    }
    assert_eq!(path::parent("./a"), ".");
}

#[test]
fn joins_are_those_of_the_standard_library() {
    for base in ["", "/", "/m", "/m/", "rel", "."] {
        for p in ["", "a", "a/b", "/abs", "..", "a/"] {
            assert_eq!(path::join(base, p), Path::new(base).join(p).to_str().unwrap(), "{base:?} {p:?}");
        }
    }
}

#[test]
fn directories_count_only_with_a_uid_in_their_name() {
    let entry = |name: Option<&str>, dir: bool| Entry { name: name.map(|n| n.to_string()), dir };
    let entries = vec![
        entry(Some("b,U=2:2,"), false),
        entry(Some("sub"), true),
        entry(None, false),
        entry(Some("note"), false),
        entry(None, true),
        entry(Some("a,U=1:2,S"), true),
    ];
    let (names, unreadable) = listing(&entries);
    assert_eq!(names, ["b,U=2:2,", "note", "a,U=1:2,S"]);
    assert_eq!(unreadable, 1);
    assert_eq!(listing(&vec![]), (vec![], 0));
}

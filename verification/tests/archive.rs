//! Folder syncs from beginning to end, against a server and a disk in memory.

use mailarchive::config::{default_port, default_true, Account, Hooks};
use mailarchive::durable::Step;
use mailarchive::folder::{read_state, BodyReply, FileOp, FlagsReply, FolderSync, Opened, Opening};
use mailarchive::job::{Action, Event, Job};
use mailarchive::maildir::{file_name, rename_durable, write_durable, Flag};
use std::collections::BTreeMap;

fn account(expunge: bool) -> Account {
    Account {
        name: "acc".to_string(),
        host: "127.0.0.1".to_string(),
        port: default_port(),
        user: "u".to_string(),
        pass: Some("p".to_string()),
        pass_env: None,
        pass_cmd: None,
        tls: false,
        folders: vec![],
        expunge,
        sync_flags: default_true(),
    }
}

fn no_hooks() -> Hooks {
    Hooks { mail_received: None }
}

/// A message on the server: UID, whether it is read, and its content (none: the server does not
/// send it).
type Mail = (u32, bool, Option<&'static str>);

struct Server {
    uid_validity: Option<u32>,
    mail: Vec<Mail>,
    /// A fetch that names one of these fails.
    fails: Vec<u32>,
    log: Vec<String>,
}

fn server(uv: u32, mail: Vec<Mail>) -> Server {
    Server { uid_validity: Some(uv), mail, fails: vec![], log: vec![] }
}

fn flags(seen: bool) -> Vec<Flag> {
    if seen {
        vec![Flag::Recent, Flag::Seen]
    } else {
        vec![Flag::Recent]
    }
}

/// Files by path: content and date.
#[derive(Default)]
struct Disk {
    files: BTreeMap<String, (Vec<u8>, Option<i64>)>,
    dirs: Vec<String>,
    hooks: Vec<String>,
    /// How many files have names that are no text.
    unreadable: usize,
    /// What was done, in order.
    log: Vec<String>,
}

impl Disk {
    fn perform(&mut self, steps: Vec<Step>, data: &[u8]) {
        for step in steps {
            match step {
                Step::Create { path } => {
                    self.files.insert(path, (vec![], None));
                }
                Step::Write { path } => self.files.get_mut(&path).unwrap().0 = data.to_vec(),
                Step::SetTimes { path, secs } => self.files.get_mut(&path).unwrap().1 = Some(secs),
                Step::SyncFile { path } => self.log.push(format!("fsync {path}")),
                Step::Rename { from, to } => {
                    let file = self.files.remove(&from).unwrap();
                    self.log.push(format!("publish {to}"));
                    self.files.insert(to, file);
                }
                Step::SyncDir { dir } => self.log.push(format!("fsync {dir}")),
            }
        }
    }

    fn names(&self, dir: &str) -> Vec<String> {
        let inside = format!("{dir}/");
        self.files.keys().filter_map(|p| p.strip_prefix(&inside)).map(|n| n.to_string()).collect()
    }

    fn text(&self, path: &str) -> Option<String> {
        self.files.get(path).map(|f| String::from_utf8(f.0.clone()).unwrap())
    }

    /// All message names, in `cur` and then in `new`.
    fn mail(&self, dir: &str) -> Vec<String> {
        let mut v = self.names(&format!("{dir}/cur"));
        v.extend(self.names(&format!("{dir}/new")));
        v
    }
}

/// Runs a whole sync of the folder at `/m/F`; the error is that of a refused fetch.
fn sync(disk: &mut Disk, srv: &mut Server, acc: &Account, hooks: &Hooks) -> Result<Vec<String>, String> {
    let mut job = Job::new(acc, hooks, "F", "/m/F", false);
    let mut event = Event::Started;
    loop {
        event = match job.next(event) {
            Action::Create(dirs) => {
                disk.dirs.extend(dirs);
                Event::Created
            }
            Action::Examine => {
                Event::Examined { uid_validity: srv.uid_validity, exists: srv.mail.len() as u32 }
            }
            Action::Look { state, cur, new } => {
                let (cur, new) = (disk.names(&cur), disk.names(&new));
                Event::Found { state: disk.text(&state), cur, new, unreadable: disk.unreadable }
            }
            Action::Record { tmp, dst, text } => {
                disk.perform(write_durable(&tmp, &dst, None), text.as_bytes());
                Event::Recorded
            }
            Action::FetchFlags { set, items } => {
                assert_eq!((set, items), ("1:*", "(UID FLAGS)"));
                srv.log.push("flags".to_string());
                let v = srv.mail.iter().map(|m| FlagsReply { uid: Some(m.0), flags: flags(m.1) });
                Event::Flags(v.collect())
            }
            Action::Change(ops) => {
                for op in ops {
                    match op {
                        FileOp::Remove { path, .. } => {
                            disk.files.remove(&path).unwrap();
                        }
                        FileOp::Rename { from, to, .. } => disk.perform(rename_durable(&from, &to), b""),
                    }
                }
                Event::Changed
            }
            Action::FetchBodies { set, items } => {
                assert_eq!(items, "(UID FLAGS INTERNALDATE BODY.PEEK[])", "fetched mail stays unread");
                srv.log.push(set.clone());
                let asked: Vec<u32> = set.split(',').map(|u| u.parse().unwrap()).collect();
                if asked.iter().any(|u| srv.fails.contains(u)) {
                    return Err("NO [SERVERBUG] fetch failed".to_string());
                }
                let v = srv.mail.iter().filter(|m| asked.contains(&m.0)).map(|m| BodyReply {
                    uid: Some(m.0),
                    flags: flags(m.1),
                    date: Some(1_600_000_000 + i64::from(m.0)),
                    body: m.2.map(|b| b.as_bytes()),
                });
                Event::Bodies(v.collect())
            }
            Action::Store(mail) => {
                for d in mail {
                    disk.perform(write_durable(&d.tmp, &d.dst, d.mtime), d.data);
                    disk.hooks.extend(d.hook);
                }
                Event::Stored
            }
            Action::Done { says, .. } => return Ok(says),
            Action::Fail(why) => return Err(why),
        };
    }
}

fn two() -> Vec<Mail> {
    vec![(1, true, Some("Subject: one\r\n\r\nbody one")), (2, true, Some("Subject: two\r\n\r\nbody two"))]
}

#[test]
fn vanished_mail_stays_and_a_changed_epoch_touches_nothing() {
    let (acc, hooks, mut disk) = (account(false), no_hooks(), Disk::default());

    let mut srv = server(100, two());
    assert_eq!(sync(&mut disk, &mut srv, &acc, &hooks).unwrap(), ["acc/F: +2 -0 (total 2)"]);
    assert_eq!(disk.mail("/m/F"), ["100.1.mailarchive,U=1:2,S", "100.2.mailarchive,U=2:2,S"]);
    assert_eq!(disk.dirs, ["/m/F/cur", "/m/F/new", "/m/F/tmp"]);
    assert_eq!(srv.log, ["flags", "1,2"]);

    // uid 2 vanishes upstream
    let mut srv = server(100, vec![two().remove(0)]);
    assert!(sync(&mut disk, &mut srv, &acc, &hooks).unwrap().is_empty());
    assert_eq!(disk.mail("/m/F").len(), 2);
    assert_eq!(srv.log, ["flags"]);

    // the server is migrated
    let mut srv = server(200, vec![(7, true, Some("Subject: new\r\n\r\nafter migration"))]);
    assert_eq!(
        sync(&mut disk, &mut srv, &acc, &hooks).unwrap(),
        ["acc/F: UIDVALIDITY changed (100 -> 200) - folder left untouched. Move /m/F aside to resume syncing it."]
    );
    assert_eq!(disk.mail("/m/F").len(), 2);
    assert!(srv.log.is_empty(), "nothing is even asked for");
    assert_eq!(disk.text("/m/F/.uidvalidity").unwrap(), "100\n");
    assert_eq!(disk.text("/m/F/cur/100.1.mailarchive,U=1:2,S").unwrap(), "Subject: one\r\n\r\nbody one");
}

#[test]
fn an_interrupted_first_sync_goes_on() {
    let (acc, hooks, mut disk) = (account(false), no_hooks(), Disk::default());
    let mut srv = server(100, (1..=26).map(|u| (u, true, Some("b"))).collect());
    srv.fails = vec![26];
    assert!(sync(&mut disk, &mut srv, &acc, &hooks).is_err());
    assert_eq!(disk.mail("/m/F").len(), 25, "the first batch is there");
    assert_eq!(disk.text("/m/F/.uidvalidity").unwrap(), "100\n");
    assert_eq!(srv.log[1], (1..=25).map(|u: u32| u.to_string()).collect::<Vec<_>>().join(","));
    assert_eq!(srv.log[2], "26");

    srv.fails.clear();
    srv.log.clear();
    assert_eq!(sync(&mut disk, &mut srv, &acc, &hooks).unwrap(), ["acc/F: +1 -0 (total 26)"]);
    assert_eq!(disk.mail("/m/F").len(), 26);
    assert_eq!(srv.log, ["flags", "26"], "nothing is fetched twice");
}

#[test]
fn the_epoch_is_on_disk_before_any_message() {
    let (acc, hooks, mut disk) = (account(false), no_hooks(), Disk::default());
    sync(&mut disk, &mut server(9, vec![(3, false, Some("x"))]), &acc, &hooks).unwrap();
    assert_eq!(
        disk.log,
        [
            "fsync /m/F/.uidvalidity.tmp",
            "publish /m/F/.uidvalidity",
            "fsync /m/F",
            "fsync /m/F/tmp/9.3",
            "publish /m/F/new/9.3.mailarchive,U=3:2,",
            "fsync /m/F/new",
        ]
    );
}

#[test]
fn a_maildir_without_state_is_not_adopted() {
    let (acc, hooks, mut disk) = (account(true), no_hooks(), Disk::default());
    let foreign = "/m/F/cur/1693000000.1_1.host,U=1:2,S".to_string();
    disk.files.insert(foreign.clone(), (b"mbsync file".to_vec(), None));
    let mut srv = server(100, vec![(1, true, Some("x")), (2, true, Some("y"))]);
    let says = sync(&mut disk, &mut srv, &acc, &hooks).unwrap();
    assert_eq!(
        says,
        ["acc/F: no .uidvalidity but 1 messages present - folder left untouched. Move /m/F aside to resume syncing it."]
    );
    assert_eq!(disk.files.keys().collect::<Vec<_>>(), [&foreign]);
}

#[test]
fn no_message_is_removed_for_zero_exists() {
    let (acc, hooks, mut disk) = (account(true), no_hooks(), Disk::default());
    sync(&mut disk, &mut server(100, two()), &acc, &hooks).unwrap();
    let mut srv = server(100, vec![]);
    assert!(sync(&mut disk, &mut srv, &acc, &hooks).unwrap().is_empty());
    assert_eq!(disk.mail("/m/F").len(), 2);
    assert!(srv.log.is_empty(), "no fetch on an empty mailbox, and no delete without one");
}

#[test]
fn expunge_removes_what_the_server_no_longer_lists() {
    let (acc, hooks, mut disk) = (account(true), no_hooks(), Disk::default());
    sync(&mut disk, &mut server(100, two()), &acc, &hooks).unwrap();
    let says = sync(&mut disk, &mut server(100, vec![two().remove(0)]), &acc, &hooks).unwrap();
    assert_eq!(says, ["acc/F: +0 -1 (total 1)"]);
    assert_eq!(disk.mail("/m/F"), ["100.1.mailarchive,U=1:2,S"]);
}

#[test]
fn flags_are_mirrored_unless_that_is_off() {
    let (mut acc, hooks, mut disk) = (account(false), no_hooks(), Disk::default());
    sync(&mut disk, &mut server(5, vec![(1, false, Some("m"))]), &acc, &hooks).unwrap();
    assert_eq!(disk.names("/m/F/new"), ["5.1.mailarchive,U=1:2,"]);

    acc.sync_flags = false;
    sync(&mut disk, &mut server(5, vec![(1, true, Some("m"))]), &acc, &hooks).unwrap();
    assert_eq!(disk.names("/m/F/new"), ["5.1.mailarchive,U=1:2,"]);

    acc.sync_flags = true;
    assert!(sync(&mut disk, &mut server(5, vec![(1, true, Some("m"))]), &acc, &hooks).unwrap().is_empty());
    assert_eq!(disk.names("/m/F/cur"), ["5.1.mailarchive,U=1:2,S"]);
    assert!(disk.names("/m/F/new").is_empty());
    assert_eq!(disk.text("/m/F/cur/5.1.mailarchive,U=1:2,S").unwrap(), "m");
}

#[test]
fn a_message_without_content_is_retried() {
    let (acc, hooks, mut disk) = (account(false), no_hooks(), Disk::default());
    let says = sync(&mut disk, &mut server(5, vec![(1, true, None), (2, true, Some("m"))]), &acc, &hooks).unwrap();
    assert_eq!(
        says,
        ["acc/F: 1 message(s) returned without a body, will retry", "acc/F: +1 -0 (total 2)"]
    );
    let mut srv = server(5, vec![(1, true, Some("now")), (2, true, Some("m"))]);
    sync(&mut disk, &mut srv, &acc, &hooks).unwrap();
    assert_eq!(srv.log, ["flags", "1"]);
    assert_eq!(disk.mail("/m/F").len(), 2);
}

#[test]
fn what_is_only_here_is_counted_in_the_report() {
    let (acc, hooks, mut disk) = (account(false), no_hooks(), Disk::default());
    sync(&mut disk, &mut server(5, two()), &acc, &hooks).unwrap();
    let says = sync(&mut disk, &mut server(5, vec![(3, true, Some("m"))]), &acc, &hooks).unwrap();
    assert_eq!(says, ["acc/F: +1 -0 ~2 kept (total 1)"]);
}

#[test]
fn messages_keep_their_date_and_run_the_hook() {
    let hooks = Hooks { mail_received: Some("notify %%mail_path%% && log %%mail_path%%".to_string()) };
    let (acc, mut disk) = (account(false), Disk::default());
    sync(&mut disk, &mut server(5, two()), &acc, &hooks).unwrap();
    assert_eq!(disk.files["/m/F/cur/5.2.mailarchive,U=2:2,S"].1, Some(1_600_000_002));
    assert_eq!(disk.files["/m/F/.uidvalidity"].1, None);
    assert_eq!(
        disk.hooks,
        [
            "notify '/m/F/cur/5.1.mailarchive,U=1:2,S' && log '/m/F/cur/5.1.mailarchive,U=1:2,S'",
            "notify '/m/F/cur/5.2.mailarchive,U=2:2,S' && log '/m/F/cur/5.2.mailarchive,U=2:2,S'",
        ]
    );
    disk.hooks.clear();
    sync(&mut disk, &mut server(5, two()), &acc, &hooks).unwrap();
    assert!(disk.hooks.is_empty(), "only new messages run it");
}

#[test]
fn a_folder_moved_aside_is_fetched_afresh() {
    let (acc, hooks, mut disk) = (account(false), no_hooks(), Disk::default());
    sync(&mut disk, &mut server(100, two()), &acc, &hooks).unwrap();
    disk.files.clear();
    let says = sync(&mut disk, &mut server(200, two()), &acc, &hooks).unwrap();
    assert_eq!(says, ["acc/F: +2 -0 (total 2)"]);
    assert_eq!(disk.text("/m/F/.uidvalidity").unwrap(), "200\n");
}

#[test]
fn an_empty_folder_with_an_old_state_is_taken_over() {
    let (acc, hooks, mut disk) = (account(false), no_hooks(), Disk::default());
    disk.files.insert("/m/F/.uidvalidity".to_string(), (b"7\n".to_vec(), None));
    let says = sync(&mut disk, &mut server(8, vec![]), &acc, &hooks).unwrap();
    assert_eq!(says, ["acc/F: +0 -0 (total 0)"], "a new epoch is reported even without mail");
    assert_eq!(disk.text("/m/F/.uidvalidity").unwrap(), "8\n");
}

#[test]
fn a_server_without_an_epoch_is_an_error() {
    let (acc, hooks, mut disk) = (account(false), no_hooks(), Disk::default());
    let mut srv = server(1, two());
    srv.uid_validity = None;
    assert_eq!(sync(&mut disk, &mut srv, &acc, &hooks).unwrap_err(), "server reported no UIDVALIDITY");
    assert!(disk.files.is_empty() && srv.log.is_empty());
}

#[test]
fn the_repair_of_dates_is_asked_for_only_after_a_sync() {
    let (acc, hooks) = (account(false), no_hooks());
    let end = |state: &str, backfill: bool| {
        let mut job = Job::new(&acc, &hooks, "F", "/m/F", backfill);
        assert!(matches!(job.next(Event::Started), Action::Create(_)));
        assert!(matches!(job.next(Event::Created), Action::Examine));
        let e = Event::Examined { uid_validity: Some(4), exists: 0 };
        assert!(matches!(job.next(e), Action::Look { .. }));
        let (state, cur) = (Some(state.to_string()), vec![file_name(4, 1, "S")]);
        let e = Event::Found { state, cur, new: vec![], unreadable: 0 };
        match job.next(e) {
            Action::Change(ops) => {
                assert!(ops.is_empty());
                job.next(Event::Changed)
            }
            other => other,
        }
    };
    assert!(matches!(end("4\n", true), Action::Done { backfill: true, .. }));
    assert!(matches!(end("4\n", false), Action::Done { backfill: false, .. }));
    assert!(matches!(end("5\n", true), Action::Done { backfill: false, .. }));
}

#[test]
fn an_event_out_of_turn_ends_a_job() {
    let (acc, hooks) = (account(false), no_hooks());
    let mut job = Job::new(&acc, &hooks, "F", "/m/F", true);
    match job.next(Event::Stored) {
        Action::Done { says, backfill } => assert!(says.is_empty() && !backfill),
        other => panic!("{other:?}"),
    }
    assert!(matches!(job.next(Event::Started), Action::Done { .. }), "and it stays over");
    assert_eq!(job.added(), 0);
}

#[test]
fn the_state_file_is_read_leniently() {
    for ok in ["17", "17\n", "17\r\n", " 17 \nrest", "+17\n", "017"] {
        assert_eq!(read_state(ok), Some(17), "{ok:?}");
    }
    for bad in ["", "\n17", "x", "17 18", "4294967296", "-1"] {
        assert_eq!(read_state(bad), None, "{bad:?}");
    }
}

#[test]
fn answers_without_a_uid_are_passed_over() {
    let found = Opened { uid_validity: 1, exists: 3, state: None, cur: vec![], new: vec![], unreadable: 0 };
    let mut s = match FolderSync::open(&account(true), &no_hooks(), "F", "/m/F", &found) {
        Opening::Start(s) => s,
        other => panic!("{other:?}"),
    };
    assert_eq!(s.state_to_write().as_deref(), Some("1\n"));
    assert!(s.wants_flags());
    let replies = vec![
        FlagsReply { uid: None, flags: vec![] },
        FlagsReply { uid: Some(9), flags: flags(false) },
        FlagsReply { uid: Some(4), flags: flags(true) },
        FlagsReply { uid: Some(9), flags: flags(true) },
    ];
    assert!(s.compare(&replies).is_empty());
    assert_eq!(s.next_batch().as_deref(), Some("4,9"), "in the order of the UIDs");
    let bodies = vec![
        BodyReply { uid: None, flags: vec![], date: None, body: Some(b"x") },
        BodyReply { uid: Some(9), flags: vec![Flag::Flagged], date: None, body: Some(b"y") },
        BodyReply { uid: Some(77), flags: vec![], date: None, body: Some(b"unasked") },
        BodyReply { uid: Some(4), flags: vec![], date: None, body: None },
    ];
    let mail = s.deliver(&bodies);
    let got: Vec<_> = mail.iter().map(|d| (d.tmp.as_str(), d.dst.as_str(), d.data)).collect();
    assert_eq!(
        got,
        [
            ("/m/F/tmp/1.9", "/m/F/new/1.9.mailarchive,U=9:2,F", &b"y"[..]),
            ("/m/F/tmp/1.77", "/m/F/new/1.77.mailarchive,U=77:2,", &b"unasked"[..]),
        ]
    );
    assert_eq!(s.added(), 2);
    assert_eq!(s.next_batch(), None);
    assert_eq!(s.report(), ["acc/F: +2 -0 (total 2)"], "as many came as were asked for");
}

#[test]
fn missing_messages_come_in_batches() {
    let (acc, hooks, mut disk) = (account(false), no_hooks(), Disk::default());
    let mut srv = server(1, (1..=60).rev().map(|u| (u, false, Some("b"))).collect());
    assert_eq!(sync(&mut disk, &mut srv, &acc, &hooks).unwrap(), ["acc/F: +60 -0 (total 60)"]);
    let set = |from: u32, to: u32| (from..=to).map(|u| u.to_string()).collect::<Vec<_>>().join(",");
    assert_eq!(srv.log, ["flags".to_string(), set(1, 25), set(26, 50), set(51, 60)]);
    assert_eq!(disk.names("/m/F/new").len(), 60);

    srv.log.clear();
    assert!(sync(&mut disk, &mut srv, &acc, &hooks).unwrap().is_empty());
    assert_eq!(srv.log, ["flags"], "a folder in line with the server is left alone");
}

/// Files whose names hold no UID.
const OTHER: [&str; 3] = ["cur/1693000000.1_1.host:2,S", "cur/1.1.mailarchive", "new/x,U=:2,S"];

fn with_others(names: &[&str]) -> Disk {
    let mut disk = Disk::default();
    for name in names {
        disk.files.insert(format!("/m/F/{name}"), (b"mail".to_vec(), None));
    }
    disk
}

#[test]
fn files_without_a_uid_stay_in_a_folder_of_the_epoch() {
    let (acc, hooks, mut disk) = (account(true), no_hooks(), with_others(&OTHER));
    disk.files.insert("/m/F/.uidvalidity".to_string(), (b"1\n".to_vec(), None));
    disk.unreadable = 2;
    assert_eq!(
        sync(&mut disk, &mut server(1, vec![(1, true, Some("m"))]), &acc, &hooks).unwrap(),
        ["acc/F: +1 -0 (total 1)"]
    );
    for name in OTHER {
        assert_eq!(disk.text(&format!("/m/F/{name}")).unwrap(), "mail");
    }
    assert_eq!(disk.mail("/m/F").len(), 4);
}

#[test]
fn a_maildir_without_state_is_refused_whatever_its_files_are_called() {
    let (acc, hooks) = (account(true), no_hooks());
    let refused = |disk: &mut Disk| {
        let before = disk.files.clone();
        let mut srv = server(100, vec![(1, true, Some("x"))]);
        let says = sync(disk, &mut srv, &acc, &hooks).unwrap();
        assert_eq!(disk.files, before, "no state file, no message");
        assert!(srv.log.is_empty(), "nothing is asked for");
        assert_eq!(says.len(), 1);
        says[0].clone()
    };
    let words = |n: u32| {
        format!(
            "acc/F: no .uidvalidity but {n} messages present - folder left untouched. \
             Move /m/F aside to resume syncing it."
        )
    };
    assert_eq!(refused(&mut with_others(&OTHER[..1])), words(1));
    assert_eq!(refused(&mut with_others(&OTHER)), words(3));
    assert_eq!(refused(&mut with_others(&["new/note"])), words(1));

    // names that are no text count too
    let mut disk = with_others(&OTHER);
    disk.unreadable = 2;
    assert_eq!(refused(&mut disk), words(5));
    let mut disk = Disk::default();
    disk.unreadable = 1;
    assert_eq!(refused(&mut disk), words(1));

    // where names have UIDs, those are counted
    assert_eq!(refused(&mut with_others(&["cur/note", "cur/a,U=1:2,S", "new/b,U=2:2,"])), words(2));

    // and so is a folder of another epoch
    let mut disk = with_others(&OTHER);
    disk.files.insert("/m/F/.uidvalidity".to_string(), (b"7\n".to_vec(), None));
    assert!(refused(&mut disk).contains("UIDVALIDITY changed (7 -> 100)"));
}

#[test]
fn a_second_sync_has_nothing_to_do() {
    let all = [account(false), account(true), Account { sync_flags: false, ..account(false) }];
    for acc in all {
        let (hooks, mut disk) = (no_hooks(), Disk::default());
        sync(&mut disk, &mut server(5, two()), &acc, &hooks).unwrap();
        // uid 1 is gone, uid 2 is unread again, uid 3 is new; then the folder claims to be empty
        for mail in [vec![(2, false, Some("b")), (3, true, Some("c"))], vec![]] {
            sync(&mut disk, &mut server(5, mail.clone()), &acc, &hooks).unwrap();
            let before = disk.files.clone();
            let mut srv = server(5, mail);
            assert!(sync(&mut disk, &mut srv, &acc, &hooks).unwrap().is_empty());
            assert_eq!(disk.files, before);
            assert!(srv.log.iter().all(|l| l == "flags"));
        }
    }
}

#[test]
fn a_message_under_another_name_is_renamed_not_fetched() {
    let (acc, hooks, mut disk) = (account(true), no_hooks(), Disk::default());
    disk.files.insert("/m/F/.uidvalidity".to_string(), (b"3\n".to_vec(), None));
    disk.files.insert("/m/F/new/moved here,U=8:2,".to_string(), (b"m".to_vec(), Some(7)));
    let mut srv = server(3, vec![(8, true, Some("m"))]);
    assert!(sync(&mut disk, &mut srv, &acc, &hooks).unwrap().is_empty());
    assert_eq!(srv.log, ["flags"]);
    assert_eq!(disk.files["/m/F/cur/3.8.mailarchive,U=8:2,S"], (b"m".to_vec(), Some(7)));
    assert_eq!(disk.mail("/m/F").len(), 1);
}

//! Which folders take part, and how a session goes on.

use mailarchive::config::{default_port, Account};
use mailarchive::hook;
use mailarchive::sync::{
    connected, folders, refused, skipped, unresolved, Event, Failure, Folder, IdleEnd, Listed, Next, Session, IO_TIMEOUT,
};

fn account(only: &[&str]) -> Account {
    Account {
        name: "acc".to_string(),
        host: "h".to_string(),
        port: default_port(),
        user: "u".to_string(),
        pass: None,
        pass_env: None,
        pass_cmd: None,
        tls: true,
        folders: only.iter().map(|s| s.to_string()).collect(),
        expunge: false,
        sync_flags: true,
    }
}

fn listed(name: &str, delim: &str) -> Listed {
    Listed { name: name.to_string(), delim: Some(delim.to_string()), no_select: false }
}

fn pairs(v: &[Folder]) -> Vec<(&str, &str)> {
    v.iter().map(|f| (f.name.as_str(), f.dir.as_str())).collect()
}

fn some(names: &[&str]) -> Vec<Folder> {
    names.iter().map(|n| Folder { name: n.to_string(), dir: format!("/m/{n}") }).collect()
}

/// What a session does next, in words.
fn words(n: Next) -> String {
    match n {
        Next::List { pattern } => {
            assert_eq!(pattern, "*");
            "list".to_string()
        }
        Next::Sync(f) => format!("sync {} at {}", f.name, f.dir),
        Next::Idle { folder } => {
            assert_eq!(folder, "INBOX");
            "idle".to_string()
        }
        Next::GiveUp => "give up".to_string(),
    }
}

#[test]
fn unusable_and_colliding_folders_are_skipped_with_a_warning() {
    let list = vec![
        listed("INBOX", "/"),
        listed("..", "/"),
        listed("Archive/2024", "/"),
        listed("Archive.2024", "."),
        Listed { name: "Virtual".to_string(), delim: None, no_select: true },
        Listed { name: "flat/name".to_string(), delim: None, no_select: false },
        listed("a\"b/", "."),
    ];
    let (out, says) = folders(&account(&[]), "/m/acc", &list);
    assert_eq!(
        pairs(&out),
        [
            ("INBOX", "/m/acc/INBOX"),
            ("Archive/2024", "/m/acc/Archive/2024"),
            ("flat/name", "/m/acc/flat/name"),
        ]
    );
    assert_eq!(
        says,
        [
            "acc: folder \"..\" skipped: not a usable directory name",
            "acc: folder \"Archive.2024\" skipped: /m/acc/Archive/2024 is already used by another folder",
            "acc: folder \"a\\\"b/\" skipped: not a usable directory name",
        ]
    );
}

#[test]
fn only_the_named_folders_take_part() {
    let list = vec![listed("INBOX", "/"), listed("Sent", "/"), listed("..", "/")];
    let (out, says) = folders(&account(&["Sent", "Gone"]), "/m", &list);
    assert_eq!(pairs(&out), [("Sent", "/m/Sent")]);
    assert!(says.is_empty(), "what is not wanted is not warned about");
    let (out, says) = folders(&account(&[]), "/m", &vec![]);
    assert!(out.is_empty() && says.is_empty());
}

#[test]
fn a_session_syncs_everything_then_waits() {
    let mut s = Session::new();
    assert_eq!(words(s.next(Event::Connected)), "list");
    assert_eq!(words(s.next(Event::Listed(some(&["A", "INBOX", "Z"])))), "sync A at /m/A");
    assert_eq!(words(s.next(Event::Synced)), "sync INBOX at /m/INBOX");
    assert_eq!(words(s.next(Event::Synced)), "sync Z at /m/Z");
    assert_eq!(words(s.next(Event::Synced)), "idle");

    // an event in INBOX: only INBOX
    assert_eq!(words(s.next(Event::Woke(IdleEnd::Changed))), "list");
    assert_eq!(words(s.next(Event::Listed(some(&["A", "INBOX", "inbox", "Z"])))), "sync INBOX at /m/INBOX");
    assert_eq!(words(s.next(Event::Synced)), "idle");

    // time is up: everything, with folders created since
    assert_eq!(words(s.next(Event::Woke(IdleEnd::TimedOut))), "list");
    assert_eq!(words(s.next(Event::Listed(some(&["A", "Later"])))), "sync A at /m/A");
    assert_eq!(words(s.next(Event::Synced)), "sync Later at /m/Later");
    assert_eq!(words(s.next(Event::Synced)), "idle");
}

#[test]
fn a_refused_folder_does_not_stop_the_others() {
    let mut s = Session::new();
    s.next(Event::Connected);
    assert_eq!(words(s.next(Event::Listed(some(&["Aaa", "Ghost", "Zzz", "INBOX"])))), "sync Aaa at /m/Aaa");
    assert_eq!(words(s.next(Event::Synced)), "sync Ghost at /m/Ghost");
    assert_eq!(words(s.next(Event::Failed(Failure::No))), "sync Zzz at /m/Zzz");
    assert_eq!(words(s.next(Event::Failed(Failure::Bad))), "sync INBOX at /m/INBOX");
    assert_eq!(words(s.next(Event::Synced)), "idle");
}

#[test]
fn any_other_failure_gives_the_session_up() {
    let mut s = Session::new();
    s.next(Event::Connected);
    s.next(Event::Listed(some(&["A", "B"])));
    assert_eq!(words(s.next(Event::Failed(Failure::Other))), "give up");
}

#[test]
fn no_folders_means_waiting_at_once() {
    let mut s = Session::new();
    s.next(Event::Connected);
    assert_eq!(words(s.next(Event::Listed(vec![]))), "idle");
    s.next(Event::Woke(IdleEnd::Changed));
    assert_eq!(words(s.next(Event::Listed(some(&["A"])))), "idle", "no INBOX, nothing is due");
}

#[test]
fn the_reason_for_skipping_a_folder_is_given() {
    assert_eq!(skipped("acc", "<..>", None), "acc: folder <..> skipped: not a usable directory name");
    assert_eq!(
        skipped("acc", "<a>", Some("/m/a")),
        "acc: folder <a> skipped: /m/a is already used by another folder"
    );
}

#[test]
fn what_happens_is_put_in_words() {
    assert_eq!(connected("acc", "imap.web.de"), "acc: connected to imap.web.de");
    assert_eq!(
        refused("acc", "Ghost", "No Response: [NOPERM] no read access"),
        "acc/Ghost: skipped: No Response: [NOPERM] no read access"
    );
    assert_eq!(unresolved("acc", "nowhere"), "acc: nowhere does not resolve");
    assert_eq!(hook::failed("acc", "INBOX", "exit status: 1"), "acc/INBOX: hook mail_received failed: exit status: 1");
    assert_eq!(IO_TIMEOUT, 120);
}

//! The repair of message dates.

use mailarchive::backfill::{marker, Backfill, DateReply, Event, Next};

fn names(v: &[&str]) -> Vec<String> {
    v.iter().map(|s| s.to_string()).collect()
}

fn repair() -> Backfill {
    let cur = names(&["5.1.mailarchive,U=1:2,S", "5.2.mailarchive,U=2:2,S", "5.3.mailarchive,U=3:2,S"]);
    Backfill::new("acc", "INBOX", "/m", &cur, &names(&["5.4.mailarchive,U=4:2,"]))
}

fn date(uid: u32, secs: i64) -> DateReply {
    DateReply { uid: Some(uid), date: Some(secs) }
}

fn check(n: Next, want: &str) {
    match n {
        Next::Check { path } => assert_eq!(path, want),
        other => panic!("{other:?}"),
    }
}

#[test]
fn wrong_dates_are_set_and_then_the_marker_is_written() {
    let mut b = repair();
    match b.next(Event::Started { marked: false }) {
        Next::FetchDates { set, items } => assert_eq!((set, items), ("1:*", "(UID INTERNALDATE)")),
        other => panic!("{other:?}"),
    }
    let replies = vec![
        date(2, 200),
        DateReply { uid: Some(1), date: None },
        DateReply { uid: None, date: Some(1) },
        date(99, 1),
        date(4, -86_400),
        date(1, 100),
    ];
    check(b.next(Event::Dates(replies)), "/m/cur/5.2.mailarchive,U=2:2,S");
    match b.next(Event::Mtime(Some(201))) {
        Next::Fix { path, secs } => {
            assert_eq!((path.as_str(), secs), ("/m/cur/5.2.mailarchive,U=2:2,S", 200));
        }
        other => panic!("{other:?}"),
    }
    check(b.next(Event::Fixed), "/m/new/5.4.mailarchive,U=4:2,");
    // a date that cannot be read is set too
    match b.next(Event::Mtime(None)) {
        Next::Fix { secs, .. } => assert_eq!(secs, -86_400),
        other => panic!("{other:?}"),
    }
    check(b.next(Event::Fixed), "/m/cur/5.1.mailarchive,U=1:2,S");
    // this one is right already, and it is the last: uid 3 is only here
    match b.next(Event::Mtime(Some(100))) {
        Next::Mark { tmp, marker } => {
            assert_eq!((tmp.as_str(), marker.as_str()), ("/m/tmp/.dates_backfilled", "/m/.dates_backfilled"));
        }
        other => panic!("{other:?}"),
    }
    match b.next(Event::Marked) {
        Next::Finished(says) => {
            assert_eq!(says.as_deref(), Some("acc/INBOX: 2 message date(s) restored from the server"));
        }
        other => panic!("{other:?}"),
    }
}

#[test]
fn a_marked_folder_costs_nothing() {
    assert!(matches!(repair().next(Event::Started { marked: true }), Next::Finished(None)));
    assert_eq!(marker("/m"), "/m/.dates_backfilled");
}

#[test]
fn an_empty_folder_is_marked_without_a_fetch() {
    let mut b = Backfill::new("acc", "INBOX", "/m", &vec![], &names(&["not a message"]));
    assert!(matches!(b.next(Event::Started { marked: false }), Next::Mark { .. }));
    assert!(matches!(b.next(Event::Marked), Next::Finished(None)));
}

#[test]
fn nothing_to_set_is_not_worth_a_word() {
    let mut b = repair();
    b.next(Event::Started { marked: false });
    check(b.next(Event::Dates(vec![date(3, 7)])), "/m/cur/5.3.mailarchive,U=3:2,S");
    assert!(matches!(b.next(Event::Mtime(Some(7))), Next::Mark { .. }));
    assert!(matches!(b.next(Event::Marked), Next::Finished(None)));
}

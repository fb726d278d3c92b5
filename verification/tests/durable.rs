//! The order of durable writes, and what a power cut leaves at each point of it.

use mailarchive::durable::Step;
use mailarchive::maildir::{rename_durable, write_durable};
use std::collections::BTreeMap;

#[derive(Clone, Debug, PartialEq)]
struct File {
    data: Vec<u8>,
    date: Option<i64>,
    synced: bool,
}

fn apply(live: &mut BTreeMap<String, File>, step: &Step, data: &[u8]) {
    match step {
        Step::Create { path } => {
            live.insert(path.clone(), File { data: vec![], date: None, synced: false });
        }
        Step::Write { path } => {
            let f = live.get_mut(path).unwrap();
            f.data = data.to_vec();
            f.synced = false;
        }
        Step::SetTimes { path, secs } => {
            let f = live.get_mut(path).unwrap();
            f.date = Some(*secs);
            f.synced = false;
        }
        Step::SyncFile { path } => live.get_mut(path).unwrap().synced = true,
        Step::Rename { from, to } => {
            let f = live.remove(from).unwrap();
            live.insert(to.clone(), f);
        }
        Step::SyncDir { .. } => {}
    }
}

#[test]
fn a_name_is_published_only_with_its_content() {
    for mtime in [None, Some(1_600_000_000), Some(-86_400)] {
        let steps = write_durable("/m/tmp/x", "/m/cur/x", mtime);
        for cut in 0..=steps.len() {
            let mut live = BTreeMap::new();
            for step in &steps[..cut] {
                apply(&mut live, step, b"body");
            }
            let whole = File { data: b"body".to_vec(), date: mtime, synced: true };
            match live.get("/m/cur/x") {
                Some(f) => assert_eq!(*f, whole, "after {cut} steps"),
                None => assert!(cut + 1 < steps.len()),
            }
        }
        assert!(matches!(steps.last(), Some(Step::SyncDir { dir }) if dir == "/m/cur"));
        assert_eq!(steps.len(), if mtime.is_some() { 6 } else { 5 });
    }
}

#[test]
fn a_rename_brings_the_directory_to_stable_storage() {
    let steps = rename_durable("/m/new/a", "/m/cur/b");
    assert_eq!(steps.len(), 2);
    assert!(matches!(&steps[0], Step::Rename { from, to } if from == "/m/new/a" && to == "/m/cur/b"));
    assert!(matches!(&steps[1], Step::SyncDir { dir } if dir == "/m/cur"));
}

#[test]
fn a_bare_name_lies_in_the_working_directory() {
    let steps = rename_durable("a", "b");
    assert!(matches!(&steps[1], Step::SyncDir { dir } if dir == "."));
}

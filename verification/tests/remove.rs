//! Removing trees, on a filesystem that is kept in memory.
use std::collections::BTreeMap;

use diskghost::remove::{
    by_depth, note_file, plan_removal, FileOutcome, Removal, RemoveEntry, RemoveOutcome,
    RemovePlan,
};
use diskghost::{remove_path, FilePath, PathPart, PathStyle, Progress, RemoveMode, RemoveReport};

fn path(text: &str) -> FilePath {
    let mut parts: Vec<PathPart> = Vec::new();
    if text.starts_with('/') {
        parts.push(PathPart::RootDir);
    }
    for name in text.split('/').filter(|n| !n.is_empty()) {
        parts.push(PathPart::Normal(name.as_bytes().to_vec()));
    }
    FilePath::new(parts)
}

fn shown(p: &FilePath) -> String {
    p.display(&PathStyle::new("/"))
}

/// Names with the length of the file, or `None` for a directory.
struct Disk {
    entries: BTreeMap<String, Option<u64>>,
}

impl Disk {
    fn with(entries: &[(&str, Option<u64>)]) -> Disk {
        Disk { entries: entries.iter().map(|(n, s)| (n.to_string(), *s)).collect() }
    }

    fn enumerate(&self, root: &str, progress: &Progress) -> Removal {
        if let Some(len) = self.entries[root] {
            return Removal::single(&path(root), Some(len));
        }
        let mut found = Removal::new();
        for (name, size) in &self.entries {
            if name != root && !name.starts_with(&format!("{root}/")) {
                continue;
            }
            let entry = match size {
                None => RemoveEntry::Dir(path(name)),
                Some(n) => RemoveEntry::Other { path: path(name), len: Some(*n) },
            };
            if !found.visit(entry, progress) {
                break;
            }
        }
        found
    }

    fn remove_dir(&mut self, name: &str) -> Result<(), String> {
        if self.entries.keys().any(|k| k.starts_with(&format!("{name}/"))) {
            return Err("not empty".to_string());
        }
        self.entries.remove(name).map(|_| ()).ok_or("no such directory".to_string())
    }

    fn remove(&mut self, root: &str, mode: RemoveMode, dry: bool, progress: &mut Progress)
        -> RemoveReport {
        let found = self.enumerate(root, progress);
        let plan = plan_removal(&found, mode, dry);
        let outcome = match &plan {
            RemovePlan::Nothing => RemoveOutcome::Nothing,
            RemovePlan::Trash => {
                self.entries.retain(|k, _| k != root && !k.starts_with(&format!("{root}/")));
                RemoveOutcome::Trashed(Ok(()))
            },
            RemovePlan::Delete { levels } => {
                let mut files: Vec<FileOutcome> = Vec::new();
                for f in &found.files {
                    let tried = if progress.cancelled() {
                        None
                    } else {
                        let gone = self.entries.remove(&shown(f));
                        Some(gone.map(|_| ()).ok_or("no such file".to_string()))
                    };
                    files.push(note_file(tried, progress));
                }
                let levels = levels
                    .iter()
                    .map(|level| level.iter().map(|d| self.remove_dir(&shown(d))).collect())
                    .collect();
                RemoveOutcome::Deleted { files, levels }
            },
        };
        remove_path(&path(root), &found, &plan, &outcome, progress, &PathStyle::new("/"))
    }
}

fn sample() -> Disk {
    Disk::with(&[
        ("/d", None),
        ("/d/a", None),
        ("/d/a/b", None),
        ("/d/a/1.bin", Some(1000)),
        ("/d/a/b/2.bin", Some(500)),
        ("/d/3.bin", Some(200)),
        ("/other", None),
    ])
}

#[test]
fn remove_dry_run_counts_but_keeps_everything() {
    let mut disk = sample();
    let rep = disk.remove("/d", RemoveMode::Delete, true, &mut Progress::default());
    assert!(rep.dry_run);
    assert_eq!(rep.files, 3);
    assert_eq!(rep.bytes, 1700);
    assert!(rep.dirs >= 2); // root + a + a/b
    assert!(rep.errors.is_empty());
    assert_eq!(disk.entries.len(), 7); // nothing was touched
    assert_eq!(rep.dirs, 3);
}

#[test]
fn remove_delete_wipes_the_whole_tree() {
    let mut disk = sample();
    let mut progress = Progress::default();
    let rep = disk.remove("/d", RemoveMode::Delete, false, &mut progress);
    assert!(!rep.dry_run);
    assert_eq!(rep.files, 3);
    assert!(rep.errors.is_empty(), "errors: {:?}", rep.errors);
    assert!(!disk.entries.contains_key("/d"), "tree should be gone");
    assert_eq!(disk.entries.len(), 1);
    assert_eq!(progress.files(), 3);
}

#[test]
fn remove_single_file() {
    let mut disk = Disk::with(&[("/d", None), ("/d/only.bin", Some(321))]);
    let rep = disk.remove("/d/only.bin", RemoveMode::Delete, false, &mut Progress::default());
    assert_eq!(rep.files, 1);
    assert_eq!(rep.bytes, 321);
    assert!(!disk.entries.contains_key("/d/only.bin"));
    assert!(disk.entries.contains_key("/d")); // parent left intact
    assert_eq!(rep.dirs, 0);
}

#[test]
fn trashing_moves_the_whole_path_at_once() {
    let mut disk = sample();
    let mut progress = Progress::default();
    let rep = disk.remove("/d", RemoveMode::Trash, false, &mut progress);
    assert_eq!((rep.files, rep.dirs, rep.bytes, rep.dry_run), (3, 3, 1700, false));
    assert_eq!(progress.files(), 3);
    assert_eq!(disk.entries.len(), 1);
}

#[test]
fn a_failed_trashing_is_reported() {
    let found = Removal::single(&path("/f"), None);
    let plan = plan_removal(&found, RemoveMode::Trash, false);
    let mut progress = Progress::default();
    let outcome = RemoveOutcome::Trashed(Err("no trash".to_string()));
    let rep = remove_path(&path("/f"), &found, &plan, &outcome, &mut progress, &PathStyle::new("/"));
    assert_eq!(rep.errors, vec!["/f: no trash".to_string()]);
    assert_eq!(progress.files(), 0);
    assert_eq!(rep.bytes, 0);
}

#[test]
fn failures_are_reported_files_first_then_levels() {
    let mut found = Removal::new();
    let going = Progress::default();
    found.visit(RemoveEntry::Dir(path("/d")), &going);
    found.visit(RemoveEntry::Dir(path("/d/a")), &going);
    found.visit(RemoveEntry::Other { path: path("/d/f"), len: None }, &going);
    found.visit(RemoveEntry::Other { path: path("/d/g"), len: Some(2) }, &going);
    found.visit(RemoveEntry::Unreadable, &going);
    let plan = plan_removal(&found, RemoveMode::Delete, false);
    let outcome = RemoveOutcome::Deleted {
        files: vec![FileOutcome::Failed("busy".to_string()), FileOutcome::Removed],
        levels: vec![vec![Ok(())], vec![Err("not empty".to_string())]],
    };
    let rep = remove_path(&path("/d"), &found, &plan, &outcome, &mut Progress::default(), &PathStyle::new("/"));
    assert_eq!(rep.errors, vec!["/d/f: busy".to_string(), "/d: not empty".to_string()]);
    // What failed does not count: one file and one directory are gone.
    assert_eq!((rep.files, rep.dirs, rep.bytes), (1, 1, 2));
}

#[test]
fn what_is_still_there_is_not_counted() {
    let found = Removal::single(&path("/f"), Some(321));
    let report = |mode: RemoveMode, outcome: RemoveOutcome| {
        let plan = plan_removal(&found, mode, false);
        remove_path(&path("/f"), &found, &plan, &outcome, &mut Progress::default(), &PathStyle::new("/"))
    };
    let deleted = |o: FileOutcome| RemoveOutcome::Deleted { files: vec![o], levels: vec![] };
    let r = report(RemoveMode::Delete, deleted(FileOutcome::Failed("busy".to_string())));
    assert_eq!((r.files, r.dirs, r.bytes, r.errors.len()), (0, 0, 0, 1));
    let r = report(RemoveMode::Delete, deleted(FileOutcome::Skipped));
    assert_eq!((r.files, r.dirs, r.bytes, r.errors.len()), (0, 0, 0, 0));
    let r = report(RemoveMode::Delete, deleted(FileOutcome::Removed));
    assert_eq!((r.files, r.dirs, r.bytes), (1, 0, 321));
    let r = report(RemoveMode::Trash, RemoveOutcome::Trashed(Err("no trash".to_string())));
    assert_eq!((r.files, r.dirs, r.bytes), (0, 0, 0));
    let r = report(RemoveMode::Trash, RemoveOutcome::Trashed(Ok(())));
    assert_eq!((r.files, r.dirs, r.bytes), (1, 0, 321));
}

#[test]
fn directories_go_deepest_first() {
    let dirs = vec![path("/d"), path("/d/a/b"), path("/d/a"), path("/d/c"), path("/d/c/e")];
    let levels: Vec<Vec<String>> =
        by_depth(dirs).iter().map(|l| l.iter().map(shown).collect()).collect();
    assert_eq!(
        levels,
        vec![vec!["/d/a/b", "/d/c/e"], vec!["/d/a", "/d/c"], vec!["/d"]]
    );
}

#[test]
fn cancelling_stops_the_removal() {
    let mut stopped = Progress::default();
    stopped.cancel();
    let mut found = Removal::new();
    assert!(!found.visit(RemoveEntry::Dir(path("/d")), &stopped));
    assert!(found.dirs.is_empty());
    assert!(matches!(note_file(None, &mut stopped), FileOutcome::Skipped));
    assert_eq!(stopped.files(), 0);
}

#[test]
fn bytes_to_remove_do_not_overflow() {
    let going = Progress::default();
    let mut found = Removal::new();
    found.visit(RemoveEntry::Other { path: path("/a"), len: Some(u64::MAX) }, &going);
    found.visit(RemoveEntry::Other { path: path("/b"), len: Some(2) }, &going);
    let plan = plan_removal(&found, RemoveMode::Delete, true);
    let r = remove_path(&path("/"), &found, &plan, &RemoveOutcome::Nothing, &mut Progress::default(), &PathStyle::new("/"));
    assert_eq!((r.files, r.bytes), (2, u64::MAX));
    let plan = plan_removal(&found, RemoveMode::Delete, false);
    let outcome = RemoveOutcome::Deleted {
        files: vec![FileOutcome::Removed, FileOutcome::Removed],
        levels: vec![],
    };
    let r = remove_path(&path("/"), &found, &plan, &outcome, &mut Progress::default(), &PathStyle::new("/"));
    assert_eq!((r.files, r.bytes), (2, u64::MAX));
}

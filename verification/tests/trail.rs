//! Where a walk is.
use diskghost::trail::{Sighting, Trail};
use diskghost::walk::{Walk, WalkEntry};
use diskghost::{scan, FilePath, PathPart, PathStyle, Progress, ScanTree};

fn path(text: &str) -> FilePath {
    let mut parts = vec![PathPart::RootDir];
    for name in text.split('/').filter(|n| !n.is_empty()) {
        parts.push(PathPart::Normal(name.as_bytes().to_vec()));
    }
    FilePath::new(parts)
}

fn shown(p: &FilePath) -> String {
    p.display(&PathStyle::new("/"))
}

fn dir(text: &str, depth: usize) -> Sighting {
    Sighting::Dir { path: path(text), depth, listed: true }
}

/// The directory of what could not be read.
fn unreadable(entries: &[WalkEntry]) -> Vec<String> {
    entries
        .iter()
        .filter_map(|e| match e {
            WalkEntry::Unreadable { dir } => Some(shown(dir)),
            _ => None,
        })
        .collect()
}

#[test]
fn what_cannot_be_read_counts_for_the_directory_it_is_in() {
    let mut trail = Trail::new(&path("/d"));
    // Not even the root could be read.
    assert_eq!(unreadable(&trail.meet(Sighting::Failed { depth: 0 })), vec!["/d"]);
    assert_eq!(trail.meet(dir("/d", 0)).len(), 1);
    assert_eq!(unreadable(&trail.meet(Sighting::Failed { depth: 1 })), vec!["/d"]);
    trail.meet(dir("/d/a", 1));
    trail.meet(dir("/d/a/b", 2));
    assert_eq!(unreadable(&trail.meet(Sighting::Failed { depth: 3 })), vec!["/d/a/b"]);
    // The walk is back in the directory above.
    assert_eq!(unreadable(&trail.meet(Sighting::Failed { depth: 2 })), vec!["/d/a"]);
    trail.meet(dir("/d/c", 1));
    assert_eq!(unreadable(&trail.meet(Sighting::Failed { depth: 2 })), vec!["/d/c"]);
    assert_eq!(unreadable(&trail.meet(Sighting::Failed { depth: 9 })), vec!["/d"]);
}

#[test]
fn a_directory_that_cannot_be_listed_is_met_and_counts() {
    let mut trail = Trail::new(&path("/d"));
    let mut walk = Walk::new();
    let mut progress = Progress::default();
    let closed = Sighting::Dir { path: path("/d/x"), depth: 1, listed: false };
    for seen in [
        dir("/d", 0),
        closed,
        Sighting::File { path: path("/d/f"), size: Some(3) },
        Sighting::Other,
    ] {
        for entry in trail.meet(seen) {
            assert!(walk.visit(entry, &mut progress));
        }
    }
    assert_eq!(walk.dirs.len(), 1);
    assert_eq!(walk.skipped.iter().map(shown).collect::<Vec<String>>(), vec!["/d/x"]);
    let again = Walk {
        files: walk.files.clone(),
        dirs: walk.dirs.clone(),
        skipped: walk.skipped.clone(),
    };
    let r = scan(&path("/d"), 5, again, (0, 0));
    assert_eq!((r.total_files, r.total_dirs, r.skipped), (1, 1, 1));
    let tree = ScanTree::build(&path("/d"), walk, false, (0, 0));
    assert_eq!(tree.report(&path("/d/x"), 5).unwrap().skipped, 1);
}

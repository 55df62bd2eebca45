//! The cached scan tree.
use diskghost::cache::ScanCache;
use diskghost::walk::Walk;
use diskghost::{FileEntry, FilePath, Options, PathPart, ScanTree};

fn path(text: &str) -> FilePath {
    let mut parts: Vec<PathPart> = Vec::new();
    if text.starts_with('/') {
        parts.push(PathPart::RootDir);
    }
    for name in text.split('/').filter(|n| !n.is_empty()) {
        parts.push(PathPart::Normal(name.as_bytes().to_vec()));
    }
    FilePath::new(parts)
}

fn tree(cancelled: bool) -> ScanTree {
    let walk = Walk {
        files: vec![
            FileEntry { path: path("/d/a/f"), size: 5, logical_size: 5 },
            FileEntry { path: path("/d/g"), size: 2, logical_size: 2 },
        ],
        dirs: vec![path("/d/a")],
        skipped: vec![],
    };
    ScanTree::build(&path("/d"), walk, cancelled, (10, 1))
}

fn deep() -> Options {
    Options { max_depth: Some(9), ..Default::default() }
}

#[test]
fn folders_of_the_cached_tree_are_served_from_it() {
    let mut cache = ScanCache::new();
    let opts = Options::default();
    assert!(cache.lookup(&path("/d"), &opts, false, 5).is_none());
    assert!(cache.keep(tree(false), Options::default()));
    let r = cache.lookup(&path("/d/a"), &opts, false, 5).unwrap();
    assert_eq!(r.total_size, 5);
    assert!(cache.holds(&path("/d/a")));
    assert!(!cache.holds(&path("/d/b")));
    assert!(cache.lookup(&path("/d/b"), &opts, false, 5).is_none());
    // Other options, or a wish for a fresh walk, are not served.
    assert!(cache.lookup(&path("/d/a"), &deep(), false, 5).is_none());
    assert!(cache.lookup(&path("/d/a"), &opts, true, 5).is_none());
}

#[test]
fn a_cancelled_walk_is_never_kept() {
    let mut cache = ScanCache::new();
    assert!(!cache.keep(tree(true), Options::default()));
    assert!(!cache.holds(&path("/d")));
    assert!(cache.keep(tree(false), Options::default()));
    assert!(!cache.keep(tree(true), deep()));
    assert!(cache.lookup(&path("/d"), &Options::default(), false, 5).is_some());
}

#[test]
fn history_belongs_to_the_scanned_root() {
    let mut cache = ScanCache::new();
    assert!(cache.history_root(&path("/d/a")).same(&path("/d/a")));
    assert!(cache.root().is_none());
    cache.keep(tree(false), Options::default());
    assert!(cache.history_root(&path("/d/a")).same(&path("/d")));
    assert!(cache.history_root(&path("/x")).same(&path("/x")));
    assert!(cache.root().unwrap().same(&path("/d")));
    assert!(cache.tree_with(&path("/d/a")).is_some());
    assert!(cache.tree_with(&path("/x")).is_none());
}

#[test]
fn a_clean_removal_is_taken_out_in_place() {
    let mut cache = ScanCache::new();
    let opts = Options::default();
    cache.keep(tree(false), Options::default());
    cache.after_remove(&path("/d/a"), false, true, (0, 0));
    assert!(cache.holds(&path("/d/a")));
    cache.after_remove(&path("/d/a"), true, true, (10, 6));
    assert!(!cache.holds(&path("/d/a")));
    let r = cache.lookup(&path("/d"), &opts, false, 5).unwrap();
    assert_eq!((r.total_size, r.disk_total, r.disk_free), (2, 10, 6));
    cache.after_remove(&path("/d/g"), true, false, (10, 6));
    assert!(!cache.holds(&path("/d")));
}

#[test]
fn a_real_reclaim_drops_the_tree() {
    let mut cache = ScanCache::new();
    cache.keep(tree(false), Options::default());
    cache.after_reclaim(true, 5);
    cache.after_reclaim(false, 0);
    assert!(cache.holds(&path("/d")));
    cache.after_reclaim(false, 1);
    assert!(!cache.holds(&path("/d")));
    cache.keep(tree(false), Options::default());
    cache.invalidate();
    assert!(!cache.holds(&path("/d")));
}

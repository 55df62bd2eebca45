//! Trees built from walks that are written out as plain values.
use diskghost::walk::Walk;
use diskghost::{scan, DirSize, FileEntry, FilePath, PathPart, PathStyle, Progress, ScanTree};

fn path(text: &str) -> FilePath {
    let mut parts: Vec<PathPart> = Vec::new();
    if text.starts_with('/') {
        parts.push(PathPart::RootDir);
    }
    for name in text.split('/').filter(|n| !n.is_empty()) {
        parts.push(PathPart::Normal(name.as_bytes().to_vec()));
    }
    FilePath::new(parts)
}

fn shown(p: &FilePath) -> String {
    p.display(&PathStyle::new("/"))
}

/// What walking `root` sees, for the files and directories that lie below it.
fn walk_below(root: &str, files: &[(&str, u64)], dirs: &[&str]) -> Walk {
    let below = |p: &str| p.starts_with(&format!("{root}/"));
    Walk {
        files: files
            .iter()
            .filter(|(p, _)| below(p))
            .map(|(p, n)| FileEntry { path: path(p), size: *n, logical_size: *n })
            .collect(),
        dirs: dirs.iter().filter(|d| below(d)).map(|d| path(d)).collect(),
        skipped: SKIPPED.iter().filter(|d| **d == root || below(d)).map(|d| path(d)).collect(),
    }
}

fn build(root: &str, files: &[(&str, u64)], dirs: &[&str]) -> ScanTree {
    ScanTree::build(&path(root), walk_below(root, files, dirs), false, (1000, 400))
}

const FILES: [(&str, u64); 5] = [
    ("/d/a/1.bin", 1000),
    ("/d/a/x/2.bin", 500),
    ("/d/a/x/y/3.bin", 250),
    ("/d/b/4.bin", 200),
    ("/d/top.bin", 100),
];
/// The directories of what could not be read.
const SKIPPED: [&str; 3] = ["/d/a/x", "/d/b", "/d/a/x/y"];
const DIRS: [&str; 5] = ["/d/a", "/d/a/x", "/d/a/x/y", "/d/b", "/d/empty"];

#[test]
fn drill_in_matches_a_fresh_scan() {
    let tree = build("/d", &FILES, &DIRS);
    assert!(tree.root().same(&path("/d")));
    assert!(tree.contains(&path("/d/a/x/y")));
    assert!(tree.contains(&path("/d/empty")));
    assert!(!tree.contains(&path("/d/nope")));
    assert!(!tree.cancelled());

    let root = tree.root_report(10);
    let fresh = scan(&path("/d"), 10, walk_below("/d", &FILES, &DIRS), (1000, 400));
    assert_eq!(root.total_size, fresh.total_size);
    assert_eq!(root.total_files, 5);
    assert_eq!(root.total_dirs, 5); // a, a/x, a/x/y, b, empty
    assert_eq!(root.root_files_count, 1);
    assert_eq!(shown(&root.children[0].path), "/d/a");
    assert_eq!(shown(&root.top_files[0].path), "/d/a/1.bin");
    assert_eq!(root.children.len(), 3);
    assert_eq!(shown(&root.children[2].path), "/d/empty");
    assert_eq!(root.children[2].size, 0);

    // A sub-folder from the tree equals a fresh scan of just that folder.
    let sub = tree.report(&path("/d/a/x"), 10).unwrap();
    let fresh_sub = scan(&path("/d/a/x"), 10, walk_below("/d/a/x", &FILES, &DIRS), (1000, 400));
    assert!(sub.root.same(&fresh_sub.root));
    assert_eq!(sub.total_size, fresh_sub.total_size);
    assert_eq!(sub.total_files, 2);
    assert_eq!(sub.total_dirs, 1);
    assert_eq!(sub.root_files_count, 1);
    assert_eq!(sub.children.len(), 1);
    assert_eq!(shown(&sub.children[0].path), "/d/a/x/y");
    assert_eq!(sub.top_files.len(), 2);
    assert_eq!(shown(&sub.top_files[0].path), "/d/a/x/2.bin");
    assert_eq!(sub.total_files, fresh_sub.total_files);
    assert_eq!(sub.total_dirs, fresh_sub.total_dirs);
    assert_eq!(sub.root_files_size, fresh_sub.root_files_size);
    assert!(sub.children[0].same(&fresh_sub.children[0]));

    assert!(tree.report(&path("/d/nope"), 10).is_none());

    // top_n bounds both lists; 0 yields none.
    let one = tree.root_report(1);
    assert_eq!(one.children.len(), 1);
    assert_eq!(one.top_files.len(), 1);
    let none = tree.root_report(0);
    assert!(none.children.is_empty() && none.top_files.is_empty());
}

#[test]
fn dir_sizes_lists_every_directory() {
    let files = [("/d/a/1.bin", 10), ("/d/a/b/2.bin", 20)];
    let tree = build("/d", &files, &["/d/a/b", "/d/a"]);
    let dirs = tree.dir_sizes();
    assert_eq!(dirs.len(), 2);
    assert_eq!(shown(&dirs[0].path), "/d/a");
    assert_eq!(shown(&dirs[1].path), "/d/a/b");
    assert_eq!(dirs[0].file_count, 2);
    assert_eq!(dirs[1].file_count, 1);
    assert!(dirs[0].size >= dirs[1].size);
    assert_eq!((dirs[0].size, dirs[1].size), (30, 20));
}

#[test]
fn remove_updates_every_ancestor() {
    let files = [("/d/a/1.bin", 1000), ("/d/a/x/2.bin", 500), ("/d/b/3.bin", 200)];
    let mut tree = build("/d", &files, &["/d/a", "/d/a/x", "/d/b"]);
    let before = tree.root_report(10);
    let a_x = tree.report(&path("/d/a/x"), 10).unwrap();

    // A directory: its subtree leaves the tree and the totals shrink.
    assert!(tree.remove(&path("/d/a/x")));
    assert!(!tree.contains(&path("/d/a/x")));
    let after = tree.root_report(10);
    assert_eq!(after.total_size, before.total_size - a_x.total_size);
    assert_eq!(after.total_files, before.total_files - 1);
    assert_eq!(after.total_dirs, before.total_dirs - 1);
    let a = tree.report(&path("/d/a"), 10).unwrap();
    assert_eq!(a.total_files, 1);
    assert!(a.children.is_empty());

    // A single file: only its size and count go.
    let one = tree.report(&path("/d/b"), 10).unwrap().top_files[0].clone();
    assert!(tree.remove(&one.path));
    let b = tree.report(&path("/d/b"), 10).unwrap();
    assert_eq!(b.total_files, 0);
    assert_eq!(b.total_size, 0);
    assert_eq!(tree.root_report(10).total_size, after.total_size - one.size);

    // Unknown paths and the root are refused.
    assert!(!tree.remove(&path("/d/a/x")));
    assert!(!tree.remove(&path("/d/b/missing.bin")));
    assert!(!tree.remove(&path("/d")));
    assert!(!tree.remove(&path("/")));

    // Disk space can be refreshed in place.
    tree.refresh_disk_space((1000, 900));
    assert_eq!(tree.root_report(1).disk_total, before.disk_total);
    assert_eq!(tree.root_report(1).disk_free, 900);
}

#[test]
fn cancelled_walk_is_flagged() {
    let mut p = Progress::default();
    p.cancel();
    let tree = ScanTree::build(&path("/d"), Walk::new(), p.cancelled(), (0, 0));
    assert!(tree.cancelled());
    let r = tree.root_report(10);
    assert!(r.cancelled);
    assert_eq!(r.total_files, 0);
    let files = [("/d/a/1.bin", 10)];
    let ok = build("/d", &files, &["/d/a"]);
    assert!(!ok.root_report(10).cancelled);
    assert_eq!(ok.root_report(10).total_files, 1);
    let walked = diskghost::walk_files(walk_below("/d", &files, &["/d/a"]));
    assert_eq!(walked.iter().map(|f| f.logical_size).sum::<u64>(), 10);
}

#[test]
fn missing_ancestors_are_created_on_demand() {
    let mut tree = build("/e", &[], &[]);
    let deep = path("/e/p/q/r");
    let id = tree.ensure_dir(&deep);
    assert!(tree.dir_at(id).unwrap().same(&deep));
    assert!(tree.contains(&path("/e/p")));
    assert!(tree.contains(&path("/e/p/q")));
    // Adding it again changes nothing.
    assert_eq!(tree.ensure_dir(&deep), id);
    assert_eq!(tree.root_report(5).total_dirs, 3);
    assert_eq!(tree.dir_sizes().len(), 3);
    assert!(tree.dir_at(usize::MAX).is_none());
}

#[test]
fn a_directory_is_added_once() {
    let again = build("/e", &[], &["/e/p/q/r", "/e/p/q/r"]);
    assert_eq!(again.root_report(5).total_dirs, 3);
    // A directory that brings nothing with it leaves the sizes alone.
    let mut tree = build("/d", &FILES, &DIRS);
    tree.ensure_dir(&path("/d/b/new"));
    let r = tree.root_report(10);
    assert_eq!((r.total_size, r.total_files, r.total_dirs), (2050, 5, 6));
    assert_eq!(tree.report(&path("/d/b"), 10).unwrap().total_dirs, 1);
}

#[test]
fn a_folder_counts_only_what_it_could_not_read_itself() {
    let tree = build("/d", &FILES, &DIRS);
    let skipped = |d: &str| tree.report(&path(d), 10).unwrap().skipped;
    assert_eq!(tree.root_report(10).skipped, 3);
    assert_eq!(skipped("/d/a"), 2);
    assert_eq!(skipped("/d/a/x/y"), 1);
    assert_eq!(skipped("/d/b"), 1);
    assert_eq!(skipped("/d/empty"), 0);
    for d in ["/d", "/d/a", "/d/a/x", "/d/a/x/y", "/d/b", "/d/empty"] {
        let fresh = scan(&path(d), 10, walk_below(d, &FILES, &DIRS), (1000, 400));
        let sub = tree.report(&path(d), 10).unwrap();
        assert_eq!(sub.skipped, fresh.skipped, "{d}");
        let sizes = |v: &[FileEntry]| v.iter().map(|f| f.size).collect::<Vec<u64>>();
        assert_eq!(sizes(&sub.top_files), sizes(&fresh.top_files), "{d}");
        let folders = |v: &[DirSize]| v.iter().map(|c| c.size).collect::<Vec<u64>>();
        assert_eq!(folders(&sub.children), folders(&fresh.children), "{d}");
        assert_eq!(sub.total_dirs, fresh.total_dirs, "{d}");
    }
}

#[test]
fn a_removal_leaves_the_other_folders_alone() {
    let mut tree = build("/d", &FILES, &DIRS);
    let b = tree.report(&path("/d/b"), 10).unwrap();
    assert!(tree.remove(&path("/d/a/x")));
    assert!(!tree.remove(&path("/d/a/x")));
    assert!(!tree.remove(&path("/d/a/x/2.bin")));
    let after = tree.report(&path("/d/b"), 10).unwrap();
    assert_eq!((after.total_size, after.total_files), (b.total_size, b.total_files));
    assert!(after.top_files[0].same(&b.top_files[0]));
    assert!(tree.contains(&path("/d/empty")));
    let a = tree.report(&path("/d/a"), 10).unwrap();
    assert!(a.children.is_empty());
    assert_eq!(a.top_files.len(), 1);
    assert!(!tree.root_report(10).top_files.iter().any(|f| shown(&f.path).contains("/x/")));
}

#[test]
fn a_file_brings_its_directory_with_it() {
    let tree = build("/d", &[("/d/p/q/f", 8)], &[]);
    assert!(tree.contains(&path("/d/p/q")));
    assert_eq!(tree.report(&path("/d/p"), 5).unwrap().total_size, 8);
    assert_eq!(tree.report(&path("/d/p"), 5).unwrap().root_files_count, 0);
}

#[test]
fn totals_of_children_and_own_files_add_up() {
    let tree = build("/d", &FILES, &DIRS);
    for dir in ["/d", "/d/a", "/d/a/x", "/d/a/x/y", "/d/b", "/d/empty"] {
        let r = tree.report(&path(dir), 100).unwrap();
        let below: u64 = r.children.iter().map(|c| c.size).sum();
        assert_eq!(r.total_size, below + r.root_files_size, "{dir}");
        let count: u64 = r.children.iter().map(|c| c.file_count).sum();
        assert_eq!(r.total_files, count + r.root_files_count, "{dir}");
        let mut dirs = 0;
        for c in &r.children {
            let own = tree.report(&c.path, 0).unwrap();
            assert_eq!((own.total_size, own.total_files), (c.size, c.file_count));
            dirs += 1 + own.total_dirs;
        }
        assert_eq!(r.total_dirs, dirs, "{dir}");
    }
}

#[test]
fn removing_the_first_of_two_files_with_one_path_leaves_the_other() {
    let mut tree = build("/d", &[("/d/f", 3), ("/d/f", 5)], &[]);
    assert!(tree.remove(&path("/d/f")));
    assert_eq!(tree.root_report(5).total_size, 5);
    assert!(tree.remove(&path("/d/f")));
    assert!(!tree.remove(&path("/d/f")));
    assert_eq!(tree.root_report(5).total_size, 0);
}

#[test]
fn removing_a_directory_removes_everything_below_it() {
    let mut tree = build("/d", &FILES, &DIRS);
    assert!(tree.remove(&path("/d/a")));
    for gone in ["/d/a", "/d/a/x", "/d/a/x/y"] {
        assert!(!tree.contains(&path(gone)));
    }
    let r = tree.root_report(10);
    assert_eq!((r.total_size, r.total_files, r.total_dirs), (300, 2, 2));
    assert_eq!(tree.dir_sizes().len(), 2);
}

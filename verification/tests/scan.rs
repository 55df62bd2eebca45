//! Scans of walks that are written out as plain values.
use diskghost::glob::{build_globset, is_excluded};
use diskghost::walk::{Walk, WalkEntry};
use diskghost::{
    disk_space, scan, scan_with_progress, walk_files, FileEntry, FilePath, Options, PathPart,
    PathStyle, Progress, ScanReport,
};

fn path(text: &str) -> FilePath {
    let mut parts: Vec<PathPart> = Vec::new();
    if text.starts_with('/') {
        parts.push(PathPart::RootDir);
    }
    for name in text.split('/').filter(|n| !n.is_empty()) {
        parts.push(match name {
            "." => PathPart::CurDir,
            ".." => PathPart::ParentDir,
            _ => PathPart::Normal(name.as_bytes().to_vec()),
        });
    }
    FilePath::new(parts)
}

fn join(root: &str, name: &str) -> String {
    format!("{root}/{name}")
}

/// The entries that walking `root` meets, parents first, for files given by name and
/// size below it. Honours the options as a walk of a real directory does.
fn entries(root: &str, files: &[(&str, u64)], dirs: &[&str], opts: &Options) -> Vec<WalkEntry> {
    let globs = build_globset(&opts.exclude);
    let excluded = |name: &str| {
        let full = join(root, name);
        let components: Vec<Vec<u8>> =
            full.split('/').filter(|n| !n.is_empty()).map(|n| n.as_bytes().to_vec()).collect();
        is_excluded(&globs, &full.as_bytes().to_vec(), &components)
    };
    let deep_enough = |depth: usize| match opts.max_depth {
        Some(max) => depth <= max,
        None => true,
    };
    let mut names: Vec<String> = dirs.iter().map(|d| d.to_string()).collect();
    for (name, _) in files {
        let parts: Vec<&str> = name.split('/').collect();
        for n in 1..parts.len() {
            names.push(parts[..n].join("/"));
        }
    }
    names.sort();
    names.dedup();
    let mut out = vec![WalkEntry::Dir { path: path(root), depth: 0 }];
    for name in &names {
        let depth = name.split('/').count();
        if deep_enough(depth) && !excluded(name) {
            out.push(WalkEntry::Dir { path: path(&join(root, name)), depth });
        }
    }
    for (name, size) in files {
        let depth = name.split('/').count();
        if deep_enough(depth) && !excluded(name) {
            out.push(WalkEntry::File { path: path(&join(root, name)), size: Some(*size) });
        }
    }
    out
}

fn walk_with(root: &str, files: &[(&str, u64)], opts: &Options, progress: &mut Progress) -> Walk {
    let mut walk = Walk::new();
    for e in entries(root, files, &[], opts) {
        if !walk.visit(e, progress) {
            break;
        }
    }
    walk
}

fn scanned(root: &str, files: &[(&str, u64)], top: usize) -> ScanReport {
    let walk = walk_with(root, files, &Options::default(), &mut Progress::default());
    scan(&path(root), top, walk, (0, 0))
}

fn shown(p: &FilePath) -> String {
    p.display(&PathStyle::new("/"))
}

#[test]
fn scan_totals_and_children() {
    let r = scanned("/d", &[("a/1.bin", 1000), ("a/2.bin", 500), ("b/3.bin", 200)], 10);
    assert_eq!(r.total_size, 1700);
    assert_eq!(r.total_files, 3);
    assert_eq!(shown(&r.children[0].path), "/d/a");
    assert_eq!(r.children[0].size, 1500);
    assert_eq!(r.children[0].file_count, 2);
    assert_eq!(r.total_dirs, 2);
    assert_eq!(shown(&r.root), "/d");
}

#[test]
fn loose_root_files_are_not_folders() {
    let r = scanned("/d", &[("loose.bin", 777), ("sub/inner.bin", 300)], 10);
    assert!(r.children.iter().all(|c| shown(&c.path) != "/d/loose.bin"));
    assert_eq!(r.root_files_count, 1);
    assert_eq!(r.root_files_size, 777);
    assert_eq!(r.children.len(), 1);
    assert_eq!(r.total_size, 1077);
}

#[test]
fn exclude_and_depth_options() {
    let files = [("keep.bin", 100), ("junk.tmp", 1000), ("nested/deep/deeper.bin", 50)];
    let opts = Options { exclude: vec!["*.tmp".to_string()], ..Default::default() };
    let walk = walk_with("/d", &files, &opts, &mut Progress::default());
    let r = scan_with_progress(&path("/d"), 20, walk, &Progress::default(), (0, 0));
    assert_eq!(r.total_size, 150, "junk.tmp should be excluded");

    let shallow = Options { max_depth: Some(1), ..Default::default() };
    let walk = walk_with("/d", &files, &shallow, &mut Progress::default());
    let r2 = scan_with_progress(&path("/d"), 20, walk, &Progress::default(), (0, 0));
    assert!(!r2.top_files.iter().any(|f| shown(&f.path).ends_with("deeper.bin")));
}

#[test]
fn progress_counts_and_cancel_stops() {
    let files = [("a/1.bin", 10), ("a/2.bin", 20)];
    let mut p = Progress::default();
    let walk = walk_with("/d", &files, &Options::default(), &mut p);
    let r = scan_with_progress(&path("/d"), 10, walk, &p, (0, 0));
    assert_eq!(r.total_files, 2);
    assert_eq!(p.files(), 2);
    assert_eq!(p.bytes(), 30);
    assert!(!r.cancelled);

    let mut c = Progress::default();
    c.cancel();
    let walk = walk_with("/d", &files, &Options::default(), &mut c);
    let r2 = scan_with_progress(&path("/d"), 10, walk, &c, (0, 0));
    assert_eq!(r2.total_files, 0);
    assert!(r2.cancelled);
}

#[test]
fn folders_and_loose_files_add_up_to_the_totals() {
    let r = scanned("/d", &[("x", 5), ("a/b/c", 7), ("a/d", 11), ("e/f", 13), ("y", 17)], 100);
    let below: u64 = r.children.iter().map(|c| c.size).sum();
    let count: u64 = r.children.iter().map(|c| c.file_count).sum();
    assert_eq!(r.total_size, below + r.root_files_size);
    assert_eq!(r.total_files, count + r.root_files_count);
    assert_eq!((r.total_size, r.root_files_size, below), (53, 22, 31));
}

#[test]
fn the_biggest_come_first_and_the_rest_is_cut_off() {
    let files = [("a/1", 1), ("b/1", 30), ("c/1", 20), ("2", 30), ("3", 5)];
    let r = scanned("/d", &files, 2);
    assert_eq!(r.children.iter().map(|c| c.size).collect::<Vec<u64>>(), vec![30, 20]);
    // Files of the same size keep the order in which they were met.
    let names: Vec<String> = r.top_files.iter().map(|f| shown(&f.path)).collect();
    assert_eq!(names, vec!["/d/b/1".to_string(), "/d/2".to_string()]);
    let none = scanned("/d", &files, 0);
    assert!(none.children.is_empty() && none.top_files.is_empty());
    assert_eq!(none.total_files, 5);
}

#[test]
fn files_outside_the_root_count_only_in_the_totals() {
    let walk = Walk {
        files: vec![
            FileEntry { path: path("/elsewhere/x"), size: 4, logical_size: 4 },
            FileEntry { path: path("/d"), size: 8, logical_size: 8 },
            FileEntry { path: path("/d/a/b"), size: 16, logical_size: 16 },
        ],
        dirs: vec![path("/d/a")],
        skipped: vec![path("/d"), path("/d/a"), path("/d/a")],
    };
    let r = scan(&path("/d"), 10, walk, (100, 40));
    assert_eq!(r.total_size, 28);
    assert_eq!(r.total_files, 3);
    assert_eq!(r.root_files_count, 0);
    assert_eq!(r.children.len(), 1);
    assert_eq!(r.skipped, 3);
    assert_eq!((r.disk_total, r.disk_free), (100, 40));
}

#[test]
fn a_walk_collects_what_it_meets() {
    let mut walk = Walk::new();
    let mut progress = Progress::default();
    assert!(walk.visit(WalkEntry::Dir { path: path("/d"), depth: 0 }, &mut progress));
    assert!(walk.visit(WalkEntry::Dir { path: path("/d/a"), depth: 1 }, &mut progress));
    assert!(walk.visit(WalkEntry::File { path: path("/d/f"), size: Some(9) }, &mut progress));
    assert!(walk.visit(WalkEntry::File { path: path("/d/g"), size: None }, &mut progress));
    assert!(walk.visit(WalkEntry::Other, &mut progress));
    assert!(walk.visit(WalkEntry::Unreadable { dir: path("/d/a") }, &mut progress));
    assert_eq!(walk.dirs.len(), 1);
    // What could not be read is noted by the directory that it is in.
    let skipped: Vec<String> = walk.skipped.iter().map(shown).collect();
    assert_eq!(skipped, vec!["/d".to_string(), "/d/a".to_string()]);
    assert_eq!((progress.files(), progress.bytes()), (1, 9));
    progress.cancel();
    assert!(progress.cancelled());
    assert!(!walk.visit(WalkEntry::Unreadable { dir: path("/d/a") }, &mut progress));
    assert_eq!(walk.skipped.len(), 2);
    let files = walk_files(walk);
    assert_eq!(files.len(), 1);
    assert!(files[0].same(&FileEntry { path: path("/d/f"), size: 9, logical_size: 9 }));
}

#[test]
fn folders_without_files_are_listed_too() {
    let mut walk = Walk::new();
    for e in entries("/d", &[("a/1", 9)], &["empty", "bare/inner"], &Options::default()) {
        assert!(walk.visit(e, &mut Progress::default()));
    }
    let r = scan(&path("/d"), 10, walk, (0, 0));
    let listed: Vec<(String, u64, u64)> =
        r.children.iter().map(|c| (shown(&c.path), c.size, c.file_count)).collect();
    assert_eq!(listed[0], ("/d/a".to_string(), 9, 1));
    assert_eq!(listed.len(), 3);
    assert!(listed.contains(&("/d/empty".to_string(), 0, 0)));
    assert!(listed.contains(&("/d/bare".to_string(), 0, 0)));
}

#[test]
fn unknown_disk_space_is_zero() {
    assert_eq!(disk_space(Some(10), Some(3)), (10, 3));
    assert_eq!(disk_space(None, Some(3)), (0, 3));
    assert_eq!(disk_space(Some(10), None), (10, 0));
}

#[test]
fn a_relative_root_works_like_an_absolute_one() {
    let r = scanned("./here", &[("a/1", 3), ("2", 4)], 5);
    assert_eq!(shown(&r.root), "./here");
    assert_eq!(shown(&r.children[0].path), "./here/a");
    assert_eq!(r.root_files_size, 4);
}

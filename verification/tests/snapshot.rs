//! Snapshots and their comparison.
use diskghost::snapshot::{delta_of, ParsedSnapshot};
use diskghost::walk::Walk;
use diskghost::{
    diff, format_timestamp, DiffReport, DirSize, FileEntry, FilePath, PathPart, PathStyle,
    ScanTree, Snapshot,
    SnapshotError, SNAPSHOT_FORMAT,
};

fn path(text: &str) -> FilePath {
    let mut parts: Vec<PathPart> = Vec::new();
    if text.starts_with('/') {
        parts.push(PathPart::RootDir);
    }
    for name in text.split('/').filter(|n| !n.is_empty()) {
        parts.push(PathPart::Normal(name.as_bytes().to_vec()));
    }
    FilePath::new(parts)
}

fn shown(p: &FilePath) -> String {
    p.display(&PathStyle::new("/"))
}

/// A snapshot of `root` with these files and directories in it.
fn snap_at(root: &str, files: &[(&str, u64)], dirs: &[&str], taken_at: u64) -> Snapshot {
    let walk = Walk {
        files: files
            .iter()
            .map(|(p, n)| FileEntry { path: path(p), size: *n, logical_size: *n })
            .collect(),
        dirs: dirs.iter().map(|d| path(d)).collect(),
        skipped: vec![],
    };
    Snapshot::capture(&ScanTree::build(&path(root), walk, false, (0, 0)), 5, taken_at)
}

fn snap(root: &str, files: &[(&str, u64)], dirs: &[&str]) -> Snapshot {
    snap_at(root, files, dirs, 1_700_000_000)
}

#[test]
fn capture_save_load_roundtrip() {
    let s = snap(
        "/d",
        &[("/d/a/1.bin", 100), ("/d/a/b/2.bin", 50)],
        &["/d/a", "/d/a/b"],
    );
    assert_eq!(s.format, SNAPSHOT_FORMAT);
    assert!(s.taken_at > 1_600_000_000);
    assert_eq!(shown(&s.root), "/d");
    assert_eq!(s.total_files, 2);
    assert_eq!(s.total_dirs, 2);
    assert_eq!(s.dirs.len(), 2);
    assert_eq!(s.top_files.len(), 2);

    let copy = Snapshot {
        format: s.format,
        taken_at: s.taken_at,
        root: s.root.clone(),
        total_size: s.total_size,
        total_files: s.total_files,
        total_dirs: s.total_dirs,
        dirs: s.dirs.clone(),
        top_files: s.top_files.clone(),
    };
    let back = Snapshot::load(Ok(ParsedSnapshot { format: Ok(s.format), snapshot: Ok(copy) }));
    let back = back.unwrap();
    assert_eq!(
        (back.format, back.taken_at, back.total_size, back.total_files, back.total_dirs),
        (s.format, s.taken_at, s.total_size, s.total_files, s.total_dirs)
    );
    assert_eq!(back.total_size, 150);
    assert!(back.root.same(&s.root));
    assert_eq!(back.dirs.len(), s.dirs.len());
    assert!(back.dirs.iter().zip(&s.dirs).all(|(a, b)| a.same(b)));
    assert_eq!(back.top_files.len(), s.top_files.len());
    assert!(back.top_files.iter().zip(&s.top_files).all(|(a, b)| a.same(b)));

    // Wrong format and broken JSON are reported, not silently accepted.
    let missing = || Err("missing field `taken_at`".to_string());
    assert!(matches!(
        Snapshot::load(Ok(ParsedSnapshot { format: Ok(99), snapshot: missing() })),
        Err(SnapshotError::Format(99))
    ));
    let broken = || Err("expected ident".to_string());
    assert!(matches!(
        Snapshot::load(Ok(ParsedSnapshot { format: Err("not json".to_string()), snapshot: broken() })),
        Err(SnapshotError::Json(_))
    ));
    assert!(matches!(
        Snapshot::load(Ok(ParsedSnapshot { format: Ok(SNAPSHOT_FORMAT), snapshot: missing() })),
        Err(SnapshotError::Json(_))
    ));
    assert!(matches!(
        Snapshot::load(Err("no such file".to_string())),
        Err(SnapshotError::Io(_))
    ));
}

#[test]
fn diff_reports_grown_shrunk_added_removed() {
    let old = snap_at(
        "/d",
        &[
            ("/d/grow/1.bin", 100),
            ("/d/shrink/1.bin", 100),
            ("/d/same/1.bin", 100),
            ("/d/gone/1.bin", 100),
        ],
        &["/d/grow", "/d/shrink", "/d/same", "/d/gone"],
        1_700_000_000,
    );
    let new = snap_at(
        "/d",
        &[
            ("/d/grow/1.bin", 100),
            ("/d/grow/2.bin", 100_000),
            ("/d/same/1.bin", 100),
            ("/d/fresh/1.bin", 100),
        ],
        &["/d/grow", "/d/shrink", "/d/same", "/d/fresh"],
        1_700_000_100,
    );

    let mut r = diff(&old, &new, &path("/d")).unwrap();
    assert_eq!(shown(&r.root), "/d");
    assert_eq!(r.old_taken_at, old.taken_at);
    assert_eq!(r.new_taken_at, new.taken_at);
    assert_eq!(r.old_files, 4);
    assert_eq!(r.new_files, 4);
    assert_eq!(r.files_delta, 0);
    assert_eq!(r.delta, new.total_size as i64 - old.total_size as i64);
    assert!(r.delta > 0);
    assert!(!r.is_unchanged());

    assert_eq!(r.grown.len(), 1);
    assert_eq!(shown(&r.grown[0].path), "/d/grow");
    assert_eq!(r.grown[0].old_files, 1);
    assert_eq!(r.grown[0].new_files, 2);
    assert_eq!(
        r.grown[0].delta,
        r.grown[0].new_size as i64 - r.grown[0].old_size as i64
    );
    assert_eq!(r.shrunk.len(), 1);
    assert_eq!(shown(&r.shrunk[0].path), "/d/shrink");
    assert!(r.shrunk[0].delta < 0);
    assert_eq!(r.shrunk[0].new_files, 0);
    assert_eq!(r.added.len(), 1);
    assert_eq!(shown(&r.added[0].path), "/d/fresh");
    assert_eq!(r.removed.len(), 1);
    assert_eq!(shown(&r.removed[0].path), "/d/gone");

    // Identical snapshots: nothing to report.
    let none = diff(&new, &new, &path("/d")).unwrap();
    assert!(none.is_unchanged());

    // Truncation caps every list.
    r.truncate(0);
    assert!(r.grown.is_empty() && r.removed.is_empty());
    assert!(r.shrunk.is_empty() && r.added.is_empty());
}

#[test]
fn diff_at_a_sub_folder() {
    let old = snap("/d", &[("/d/a/x/1.bin", 100)], &["/d/a", "/d/a/x"]);
    let new = snap(
        "/d",
        &[("/d/a/x/1.bin", 100), ("/d/a/x/2.bin", 100), ("/d/a/y/1.bin", 100)],
        &["/d/a", "/d/a/x", "/d/a/y"],
    );

    let r = diff(&old, &new, &path("/d/a")).unwrap();
    assert_eq!(shown(&r.root), "/d/a");
    assert_eq!(r.old_files, 1);
    assert_eq!(r.new_files, 3);
    assert_eq!(r.files_delta, 2);
    assert_eq!(r.grown.len(), 1);
    assert_eq!(shown(&r.grown[0].path), "/d/a/x");
    assert_eq!(r.added.len(), 1);
    assert_eq!(shown(&r.added[0].path), "/d/a/y");
    assert!(r.shrunk.is_empty() && r.removed.is_empty());

    // A folder the old snapshot never saw counts as previously empty.
    let y = diff(&old, &new, &path("/d/a/y")).unwrap();
    assert_eq!(y.old_size, 0);
    assert_eq!(y.old_files, 0);
    assert_eq!(y.new_files, 1);

    // But it must exist in the new one.
    assert!(matches!(
        diff(&old, &new, &path("/d/nope")),
        Err(SnapshotError::NotInSnapshot(_))
    ));
}

#[test]
fn diff_refuses_different_roots() {
    let err = diff(&snap("/d1", &[], &[]), &snap("/d2", &[], &[]), &path("/d1")).unwrap_err();
    assert!(matches!(err, SnapshotError::RootMismatch { .. }));
    assert!(err.message(&PathStyle::new("/")).contains("different directories"));
    assert_eq!(err.message(&PathStyle::new("/")), "snapshots are of different directories: /d1 vs /d2");
}

#[test]
fn error_messages_are_descriptive() {
    assert!(SnapshotError::Format(7).message(&PathStyle::new("/")).contains("format 7"));
    assert_eq!(
        SnapshotError::Format(7).message(&PathStyle::new("/")),
        "unsupported snapshot format 7 (this build reads format 1)"
    );
    assert!(SnapshotError::NotInSnapshot(path("x")).message(&PathStyle::new("/")).contains("not a directory"));
    assert_eq!(
        SnapshotError::NotInSnapshot(path("x")).message(&PathStyle::new("/")),
        "not a directory in the snapshot: x"
    );
    let io = SnapshotError::Io(std::io::Error::other("boom").to_string());
    assert_eq!(io.message(&PathStyle::new("/")), "boom");
    let parse = serde_json::from_str::<serde_json::Value>("{").unwrap_err();
    let json = SnapshotError::Json(parse.to_string());
    assert!(json.message(&PathStyle::new("/")).starts_with("invalid snapshot:"));
}

#[test]
fn root_key_is_stable_and_short() {
    let a = Snapshot::root_key("/some/dir");
    assert_eq!(a.len(), 16);
    assert_eq!(a, Snapshot::root_key("/some/dir"));
    assert_ne!(a, Snapshot::root_key("/other/dir"));
    assert!(a.chars().all(|c| c.is_ascii_hexdigit()));
    assert_eq!(Snapshot::root_key("abc"), "6437b3ac38465133");
}

#[test]
fn timestamps_render_as_utc() {
    assert_eq!(format_timestamp(0), "1970-01-01 00:00 UTC");
    assert_eq!(format_timestamp(1_600_000_000), "2020-09-13 12:26 UTC");
    assert_eq!(format_timestamp(951_782_400), "2000-02-29 00:00 UTC");
    assert_eq!(format_timestamp(1_704_067_199), "2023-12-31 23:59 UTC");
}

fn dir(p: &str, size: u64) -> DirSize {
    DirSize { path: path(p), size, file_count: 1 }
}

/// A snapshot of `/d` with these immediate sub-folders.
fn with_dirs(dirs: Vec<DirSize>) -> Snapshot {
    Snapshot {
        format: SNAPSHOT_FORMAT,
        taken_at: 5,
        root: path("/d"),
        total_size: 1,
        total_files: 1,
        total_dirs: dirs.len() as u64,
        dirs,
        top_files: vec![],
    }
}

fn changed(r: &[diskghost::DirDelta]) -> Vec<(String, i64)> {
    r.iter().map(|d| (shown(&d.path), d.delta)).collect()
}

#[test]
fn changes_are_ordered_by_size_then_by_path() {
    let old = with_dirs(vec![
        dir("/d/a", 10),
        dir("/d/b", 10),
        dir("/d/c", 10),
        dir("/d/p", 10),
        dir("/d/q", 20),
        dir("/d/r", 15),
    ]);
    let new = with_dirs(vec![
        dir("/d/c", 15),
        dir("/d/b", 15),
        dir("/d/a", 99),
        dir("/d/p", 5),
        dir("/d/q", 5),
        dir("/d/r", 10),
    ]);
    let r = diff(&old, &new, &path("/d")).unwrap();
    let named = |p: &str, d: i64| (p.to_string(), d);
    assert_eq!(changed(&r.grown), vec![named("/d/a", 89), named("/d/b", 5), named("/d/c", 5)]);
    assert_eq!(changed(&r.shrunk), vec![named("/d/q", -15), named("/d/p", -5), named("/d/r", -5)]);
    // Seen the other way round, gains are losses.
    let back = diff(&new, &old, &path("/d")).unwrap();
    assert_eq!(changed(&back.shrunk), vec![named("/d/a", -89), named("/d/b", -5), named("/d/c", -5)]);
    assert_eq!(changed(&back.grown), vec![named("/d/q", 15), named("/d/p", 5), named("/d/r", 5)]);
    assert_eq!(back.delta, -r.delta);
}

#[test]
fn new_and_vanished_folders_are_listed_largest_first() {
    let old = with_dirs(vec![dir("/d/x", 1), dir("/d/y", 7), dir("/d/x/deep", 50)]);
    let new = with_dirs(vec![dir("/d/b", 3), dir("/d/a", 3), dir("/d/c", 9)]);
    let r = diff(&old, &new, &path("/d")).unwrap();
    let names = |v: &[DirSize]| v.iter().map(|d| shown(&d.path)).collect::<Vec<String>>();
    assert_eq!(names(&r.added), vec!["/d/c", "/d/a", "/d/b"]);
    assert_eq!(names(&r.removed), vec!["/d/y", "/d/x"]);
    let back = diff(&new, &old, &path("/d")).unwrap();
    assert_eq!(names(&back.removed), names(&r.added));
    assert_eq!(names(&back.added), names(&r.removed));
}

#[test]
fn where_a_folder_is_listed_twice_the_later_record_counts() {
    let old = with_dirs(vec![dir("/d/a", 1), dir("/d/a", 5)]);
    let new = with_dirs(vec![dir("/d/a", 100), dir("/d/a", 6)]);
    let r = diff(&old, &new, &path("/d")).unwrap();
    assert_eq!(changed(&r.grown), vec![("/d/a".to_string(), 1)]);
    // The totals of a folder are those of its first record.
    let at = diff(&old, &new, &path("/d/a")).unwrap();
    assert_eq!((at.old_size, at.new_size), (1, 100));
}

#[test]
fn differences_are_capped_only_where_they_do_not_fit() {
    let half = 1u64 << 63;
    assert_eq!(delta_of(7, 10), -3);
    assert_eq!(delta_of(half + 1, half), 1);
    assert_eq!(delta_of(u64::MAX, half), i64::MAX);
    assert_eq!(delta_of(u64::MAX, 0), i64::MAX);
    assert_eq!(delta_of(0, half), i64::MIN);
    assert_eq!(delta_of(0, u64::MAX), i64::MIN);
    let r = diff(
        &with_dirs(vec![dir("/d/a", 0)]),
        &with_dirs(vec![dir("/d/a", u64::MAX)]),
        &path("/d"),
    )
    .unwrap();
    assert_eq!(r.grown[0].delta, i64::MAX);
}

#[test]
fn huge_folders_grow_too() {
    let half = 1u64 << 63;
    let at = |taken_at: u64, size: u64| {
        let mut s = with_dirs(vec![dir("/d/a", size)]);
        s.taken_at = taken_at;
        s.total_size = size;
        s
    };
    let r = diff(&at(1, half), &at(2, half + 1), &path("/d")).unwrap();
    assert_eq!(r.delta, 1);
    assert_eq!(changed(&r.grown), vec![("/d/a".to_string(), 1)]);
    assert_eq!((r.grown[0].old_size, r.grown[0].new_size), (half, half + 1));
    assert!(!r.is_unchanged());
    let r = diff(&at(1, half + 1), &at(2, half), &path("/d")).unwrap();
    assert_eq!(changed(&r.shrunk), vec![("/d/a".to_string(), -1)]);
    // The biggest gain comes first, also where both gains are too big to be shown.
    let old = with_dirs(vec![dir("/d/a", 0), dir("/d/b", 0)]);
    let new = with_dirs(vec![dir("/d/a", half), dir("/d/b", half + 1)]);
    let r = diff(&old, &new, &path("/d")).unwrap();
    assert_eq!(
        changed(&r.grown),
        vec![("/d/b".to_string(), i64::MAX), ("/d/a".to_string(), i64::MAX)]
    );
}

#[test]
fn a_snapshot_answers_for_every_folder() {
    let s = snap(
        "/d",
        &[("/d/a/b/f", 4), ("/d/g", 2)],
        &["/d/a", "/d/a/b", "/d/empty"],
    );
    for (at, size) in [("/d", 6), ("/d/a", 4), ("/d/a/b", 4), ("/d/empty", 0)] {
        let r: DiffReport = diff(&s, &s, &path(at)).unwrap();
        assert_eq!((r.old_size, r.new_size), (size, size));
        assert!(r.is_unchanged());
    }
    assert!(diff(&s, &s, &path("/d/g")).is_err());
}

#[test]
fn a_cancelled_walk_is_not_recorded() {
    let tree = |cancelled: bool| {
        let file = FileEntry { path: path("/d/f"), size: 7, logical_size: 7 };
        let walk = Walk { files: vec![file], dirs: vec![], skipped: vec![] };
        ScanTree::build(&path("/d"), walk, cancelled, (0, 0))
    };
    assert!(Snapshot::record(&tree(true), 5, 9).is_none());
    let kept = Snapshot::record(&tree(false), 5, 9).unwrap();
    assert_eq!((kept.total_size, kept.taken_at, kept.top_files.len()), (7, 9, 1));
}

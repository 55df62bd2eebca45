//! What is shown to people.
use diskghost::decimal::{decimal_text, pad, zero_pad};
use diskghost::text::{
    megabytes, print_diff, print_dupes, print_errors, print_reclaim, print_remove, print_scan,
    progress_line, refuse_removal, refuse_scan, warn_invalid_globs,
};
use diskghost::{
    human_size, DiffReport, DirDelta, DirSize, DupGroup, FileEntry, FilePath, PathPart, PathStyle,
    Progress,
    ReclaimReport, RemoveReport, ScanReport,
};

fn path(text: &str) -> FilePath {
    let mut parts: Vec<PathPart> = Vec::new();
    if text.starts_with('/') {
        parts.push(PathPart::RootDir);
    }
    for name in text.split('/').filter(|n| !n.is_empty()) {
        parts.push(PathPart::Normal(name.as_bytes().to_vec()));
    }
    FilePath::new(parts)
}

fn strings(v: &[&str]) -> Vec<String> {
    v.iter().map(|s| s.to_string()).collect()
}

#[test]
fn human_size_formats() {
    assert_eq!(human_size(0), "0 B");
    assert_eq!(human_size(1023), "1023 B");
    assert_eq!(human_size(1024), "1.0 KB");
    assert_eq!(human_size(1536), "1.5 KB");
}

/// The size as floating-point arithmetic shows it.
fn by_floats(bytes: u64) -> String {
    let units = ["B", "KB", "MB", "GB", "TB", "PB"];
    let mut size = bytes as f64;
    let mut unit = 0;
    while size >= 1024.0 && unit < units.len() - 1 {
        size /= 1024.0;
        unit += 1;
    }
    if unit == 0 {
        format!("{bytes} B")
    } else {
        format!("{:.1} {}", size, units[unit])
    }
}

#[test]
fn sizes_are_rounded_as_floating_point_does() {
    for n in 0..300_000u64 {
        assert_eq!(human_size(n), by_floats(n));
    }
    for shift in 0..64 {
        let base = 1u64 << shift;
        for delta in 0..200u64 {
            for n in [base.wrapping_add(delta), base.wrapping_sub(delta), base / 20 * delta] {
                assert_eq!(human_size(n), by_floats(n), "{n}");
            }
        }
    }
    let mut n = 0x9e37_79b9_7f4a_7c15u64;
    for _ in 0..100_000 {
        n ^= n << 13;
        n ^= n >> 7;
        n ^= n << 17;
        assert_eq!(human_size(n), by_floats(n), "{n}");
        assert_eq!(human_size(n >> 11), by_floats(n >> 11), "{n}");
    }
    assert_eq!(human_size(u64::MAX), "16384.0 PB");
    assert_eq!(human_size(1024 * 1024 - 1), "1024.0 KB");
    assert_eq!(human_size(1_610_612_736), "1.5 GB");
}

#[test]
fn numbers_are_written_in_decimal() {
    assert_eq!(decimal_text(0), "0");
    assert_eq!(decimal_text(u64::MAX), "18446744073709551615");
    assert_eq!(zero_pad(7, 2), "07");
    assert_eq!(zero_pad(1234, 2), "1234");
    assert_eq!(pad("ab", " ", 4), "  ab");
    assert_eq!(pad("abcde", " ", 4), "abcde");
    assert_eq!(pad("é", " ", 3), "  é");
}

fn report() -> ScanReport {
    ScanReport {
        root: path("/d"),
        total_size: 2048,
        total_files: 3,
        total_dirs: 1,
        skipped: 2,
        children: vec![DirSize { path: path("/d/a"), size: 1536, file_count: 2 }],
        root_files_size: 512,
        root_files_count: 1,
        top_files: vec![FileEntry { path: path("/d/a/f"), size: 1024, logical_size: 1024 }],
        disk_total: 0,
        disk_free: 0,
        cancelled: false,
    }
}

#[test]
fn a_scan_is_shown() {
    assert_eq!(
        print_scan(&report(), &PathStyle::new("/")),
        strings(&[
            "Scan of /d",
            "  total: 2.0 KB across 3 files in 1 dirs",
            "  skipped: 2 unreadable entries (permissions?)",
            "",
            "Biggest sub-folders:",
            "      1.5 KB  /d/a",
            "       512 B  (1 file(s) directly in root)",
            "",
            "Biggest files:",
            "      1.0 KB  /d/a/f",
        ])
    );
    let mut bare = report();
    bare.skipped = 0;
    bare.root_files_count = 0;
    let lines = print_scan(&bare, &PathStyle::new("/"));
    assert_eq!(lines.len(), 8);
    assert!(!lines.iter().any(|l| l.contains("skipped") || l.contains("directly in root")));
}

#[test]
fn duplicates_are_shown() {
    assert_eq!(print_dupes(&vec![], &PathStyle::new("/")), strings(&["No duplicates found."]));
    let group = DupGroup {
        hash: "0123456789abcdef".to_string(),
        size: 1024,
        files: vec![path("/a"), path("/b")],
        wasted: 1024,
    };
    assert_eq!(
        print_dupes(&vec![group], &PathStyle::new("/")),
        strings(&[
            "Found 1 duplicate group(s) — 1.0 KB reclaimable:",
            "",
            "  2 x 1.0 KB (1.0 KB wasted) [0123456789ab]",
            "      /a",
            "      /b",
            "",
        ])
    );
}

#[test]
fn a_removal_is_shown() {
    let mut r = RemoveReport {
        root: path("/d"),
        files: 2,
        dirs: 1,
        bytes: 10,
        errors: vec![],
        dry_run: true,
    };
    let (out, err) = print_remove(&r, true, &PathStyle::new("/"));
    assert_eq!(
        out,
        strings(&[
            "DRY-RUN [trash] /d: would remove 2 file(s), 1 dir(s), 10 B",
            "  pass --apply to actually remove",
        ])
    );
    assert!(err.is_empty());
    r.dry_run = false;
    r.errors = strings(&["/d/f: busy"]);
    let (out, err) = print_remove(&r, false, &PathStyle::new("/"));
    assert_eq!(out, strings(&["[delete] /d: removed 2 file(s), 1 dir(s), 10 B"]));
    assert_eq!(err, strings(&["  ! /d/f: busy", "  1 error(s)"]));
}

#[test]
fn a_reclaim_is_summed_up() {
    let mut r = ReclaimReport { removed: 3, reclaimed: 1024, errors: vec![], dry_run: true };
    assert_eq!(
        print_reclaim(&r),
        strings(&[
            "",
            "Reclaim [DRY-RUN — nothing changed; pass --apply to act]: 3 file(s), 1.0 KB reclaimable",
        ])
    );
    r.dry_run = false;
    r.errors = strings(&["x", "y"]);
    assert_eq!(
        print_reclaim(&r)[1],
        "Reclaim [applied]: 3 file(s), 1.0 KB reclaimable, 2 error(s)"
    );
    assert_eq!(print_errors(&r.errors), strings(&["  ! x", "  ! y"]));
}

fn unchanged() -> DiffReport {
    DiffReport {
        root: path("/d"),
        old_taken_at: 0,
        new_taken_at: 60,
        old_size: 1024,
        new_size: 1024,
        delta: 0,
        old_files: 1,
        new_files: 1,
        files_delta: 0,
        grown: vec![],
        shrunk: vec![],
        added: vec![],
        removed: vec![],
    }
}

#[test]
fn a_comparison_is_shown() {
    let head = "Changes in /d (1970-01-01 00:00 UTC -> 1970-01-01 00:01 UTC)";
    assert_eq!(print_diff(&unchanged(), &PathStyle::new("/")), strings(&[head, "  nothing changed"]));
    let delta = |p: &str, delta: i64| DirDelta {
        path: path(p),
        old_size: 0,
        new_size: 0,
        delta,
        old_files: 0,
        new_files: 0,
    };
    let mut r = unchanged();
    r.new_size = 3072;
    r.delta = 2048;
    r.files_delta = -1;
    r.grown = vec![delta("/d/g", 2048)];
    r.shrunk = vec![delta("/d/s", -5)];
    r.added = vec![DirSize { path: path("/d/n"), size: 7, file_count: 1 }];
    r.removed = vec![DirSize { path: path("/d/o"), size: 8, file_count: 1 }];
    assert_eq!(
        print_diff(&r, &PathStyle::new("/")),
        strings(&[
            head,
            "  total: 1.0 KB -> 3.0 KB (+2.0 KB, -1 file(s))",
            "Grew:",
            "      +2.0 KB  /d/g",
            "Shrank:",
            "         -5 B  /d/s",
            "New folders:",
            "         7 B  /d/n",
            "Removed folders:",
            "         8 B  /d/o",
        ])
    );
    let mut gone = unchanged();
    gone.delta = i64::MIN;
    assert!(print_diff(&gone, &PathStyle::new("/"))[1].contains("-8192.0 PB"));
}

#[test]
fn ignored_patterns_are_named() {
    assert_eq!(warn_invalid_globs(&vec![]), None);
    assert_eq!(
        warn_invalid_globs(&strings(&["[a", "{b"])),
        Some("warning: ignoring invalid exclude glob(s): [a, {b".to_string())
    );
}

#[test]
fn progress_is_shown() {
    let mut p = Progress::default();
    p.advance(2, 2048);
    assert_eq!(progress_line(&p), "  working… 2 files, 2.0 KB   ");
}

#[test]
fn roots_and_missing_paths_are_not_removed() {
    assert_eq!(refuse_removal(&path("/d"), true, "/d"), None);
    assert_eq!(
        refuse_removal(&path("/d"), false, "/d"),
        Some("no such path: /d".to_string())
    );
    assert_eq!(
        refuse_removal(&path("/"), true, "/"),
        Some("refusing to remove a filesystem root: /".to_string())
    );
    let drive = FilePath::new(vec![PathPart::Prefix(b"C:".to_vec()), PathPart::RootDir]);
    assert!(refuse_removal(&drive, true, "C:\\").is_some());
}

#[test]
fn only_directories_are_scanned() {
    assert_eq!(refuse_scan(true, "x"), None);
    assert_eq!(refuse_scan(false, "x"), Some("not a directory: x".to_string()));
    assert_eq!(megabytes(5), 5_242_880);
}

#[test]
fn paths_are_shown_with_separators() {
    let p = FilePath::new(vec![
        PathPart::Prefix(b"C:".to_vec()),
        PathPart::RootDir,
        PathPart::Normal(b"a".to_vec()),
        PathPart::ParentDir,
        PathPart::Normal("ü".as_bytes().to_vec()),
    ]);
    assert_eq!(p.display(&PathStyle::new("\\")), "C:\\a\\..\\ü");
    assert_eq!(path("/").display(&PathStyle::new("/")), "/");
    assert_eq!(FilePath::new(vec![]).display(&PathStyle::new("/")), "");
    let odd = FilePath::new(vec![PathPart::CurDir, PathPart::Normal(vec![b'x', 0xff])]);
    assert_eq!(odd.display(&PathStyle::new("/")), "./x\u{fffd}");
    assert_eq!(path("a/b").join_texts(&strings(&["1", "2"]), &PathStyle::new("::")), "1::2");
}

#[test]
fn valid_names_are_shown_as_they_are() {
    let plain = PathStyle::new("/");
    assert_eq!(path("grüße").display(&plain), "grüße");
    let mixed = FilePath::new(vec![
        PathPart::Normal("ä".as_bytes().to_vec()),
        PathPart::Normal(vec![0xff, b'x']),
        PathPart::Normal("語".as_bytes().to_vec()),
    ]);
    assert_eq!(mixed.display(&plain), "ä/\u{fffd}x/語");
}

#[test]
fn a_path_is_shown_as_it_was_given() {
    let given = path("/d/sub");
    let style = PathStyle::of("/", &given, "/d//sub/");
    assert_eq!(given.display(&style), "/d//sub/");
    assert_eq!(path("/d/sub/a/b").display(&style), "/d//sub/a/b");
    assert_eq!(path("/d/other").display(&style), "/d/other");
    assert_eq!(path("/d/subway").display(&style), "/d/subway");
    let plain = PathStyle::of("/", &given, "/d/./sub");
    assert_eq!(path("/d/sub/a").display(&plain), "/d/./sub/a");
    let root = PathStyle::of("/", &path("/"), "/");
    assert_eq!(path("/x/y").display(&root), "/x/y");
    let mut r = report();
    r.root = path("/d/sub");
    assert_eq!(print_scan(&r, &style)[0], "Scan of /d//sub/");
    let texts = strings(&["", "1", "2", "3"]);
    assert_eq!(path("/d/sub/a").join_texts(&texts, &style), "/d//sub/3");
}

//! Where snapshots are stored.
use diskghost::reclaim::ReclaimAction;
use diskghost::store::{
    dir_of_key, expired, parse_action, snapshot_dir, snapshot_file, snapshot_time, snapshot_times,
    SNAPSHOTS_PER_ROOT,
};
use diskghost::{FilePath, PathPart, PathStyle};

fn path(text: &str) -> FilePath {
    let mut parts: Vec<PathPart> = Vec::new();
    if text.starts_with('/') {
        parts.push(PathPart::RootDir);
    }
    for name in text.split('/').filter(|n| !n.is_empty()) {
        parts.push(PathPart::Normal(name.as_bytes().to_vec()));
    }
    FilePath::new(parts)
}

#[test]
fn snapshot_files_are_named_by_their_time() {
    let f = snapshot_file(&path("/data/key"), 1_700_000_000);
    assert_eq!(f.display(&PathStyle::new("/")), "/data/key/1700000000.json");
    assert_eq!(snapshot_time("1700000000.json"), Some(1_700_000_000));
    for t in [0, 9, 10, 99, 100, 18_446_744_073_709_551_615u64] {
        let name = format!("{t}.json");
        assert_eq!(snapshot_time(&name), Some(t));
    }
}

#[test]
fn other_files_are_not_snapshots() {
    for name in [
        "", ".json", "+.json", "12.jso", "12.json.bak", "x12.json", "1 2.json", "-1.json",
        "18446744073709551616.json", "99999999999999999999999.json", "json", "12json",
    ] {
        assert_eq!(snapshot_time(name), None, "{name}");
    }
    // A number may have a plus sign and leading zeros, as everywhere.
    assert_eq!(snapshot_time("+7.json"), Some(7));
    assert_eq!(snapshot_time("007.json"), Some(7));
    assert_eq!(snapshot_time("++7.json"), None);
}

#[test]
fn numbers_are_read_as_the_standard_library_reads_them() {
    for stem in ["", "+", "0", "+0", "00", "42", "4 2", "a", "1a", "+18446744073709551615", "1+1"] {
        let name = format!("{stem}.json");
        assert_eq!(snapshot_time(&name), stem.parse::<u64>().ok(), "{stem}");
    }
}

#[test]
fn times_are_listed_newest_first() {
    let names = ["5.json", "notes.txt", "40.json", "7.json", "x.json"];
    let names: Vec<String> = names.iter().map(|n| n.to_string()).collect();
    assert_eq!(snapshot_times(&names), vec![40, 7, 5]);
}

#[test]
fn the_oldest_snapshots_expire() {
    let times: Vec<u64> = (0..25u64).rev().collect();
    assert_eq!(SNAPSHOTS_PER_ROOT, 20);
    assert_eq!(expired(&times), vec![4, 3, 2, 1, 0]);
    assert!(expired(&times[..20].to_vec()).is_empty());
    assert!(expired(&Vec::new()).is_empty());
}

#[test]
fn every_root_has_its_own_folder() {
    let base = path("/data");
    assert_eq!(dir_of_key(&base, "k").display(&PathStyle::new("/")), "/data/snapshots/k");
    assert_eq!(snapshot_dir(&base, "abc").display(&PathStyle::new("/")), "/data/snapshots/6437b3ac38465133");
    assert!(!snapshot_dir(&base, "/a").same(&snapshot_dir(&base, "/b")));
}

#[test]
fn actions_have_names() {
    assert_eq!(parse_action(&"delete".to_string()), Ok(ReclaimAction::Delete));
    assert_eq!(parse_action(&"trash".to_string()), Ok(ReclaimAction::Trash));
    assert_eq!(parse_action(&"hardlink".to_string()), Ok(ReclaimAction::Hardlink));
    assert_eq!(parse_action(&"shred".to_string()), Err("unknown action: shred".to_string()));
}

//! Duplicates among files that are written out as plain values.
use diskghost::dupes::{
    dedup_hard_links, find_duplicates, find_duplicates_with_progress, prefix_groups, size_groups,
    worth_hashing, DupGroup, Probe,
};
use diskghost::hash::{hash_prefix, hash_text, to_hex};
use diskghost::{FileEntry, FilePath, PathPart, PathStyle, Progress};

fn path(text: &str) -> FilePath {
    let mut parts: Vec<PathPart> = Vec::new();
    if text.starts_with('/') {
        parts.push(PathPart::RootDir);
    }
    for name in text.split('/').filter(|n| !n.is_empty()) {
        parts.push(PathPart::Normal(name.as_bytes().to_vec()));
    }
    FilePath::new(parts)
}

fn shown(p: &FilePath) -> String {
    p.display(&PathStyle::new("/"))
}

/// A file with a text as its content, probed all the way.
fn probe(name: &str, content: &str, id: u64) -> Probe {
    let size = content.len() as u64;
    let mut p = Probe::new(FileEntry { path: path(name), size, logical_size: size });
    p.id = Some(id);
    p.prefix = Some(hash_prefix(&content.as_bytes().to_vec()));
    p.digest = Some(hash_text(content));
    p
}

fn names(g: &DupGroup) -> Vec<String> {
    g.files.iter().map(shown).collect()
}

#[test]
fn duplicates_detected() {
    let groups = find_duplicates(
        vec![
            probe("/d/x/dup1.bin", "hello world duplicate content that is long enough", 1),
            probe("/d/y/dup2.bin", "hello world duplicate content that is long enough", 2),
            probe("/d/z/unique.bin", "something else entirely here, also long enough!!", 3),
        ],
        1,
    );
    assert_eq!(groups.len(), 1);
    assert_eq!(groups[0].files.len(), 2);
    assert_eq!(groups[0].wasted, groups[0].size);
}

#[test]
fn hard_links_are_not_duplicates() {
    let body = "identical bytes shared through a hard link, long enough";
    let groups =
        find_duplicates(vec![probe("/d/a.bin", body, 7), probe("/d/b.bin", body, 7)], 1);
    assert!(
        groups.is_empty(),
        "hard links must not be reported as duplicates, got {groups:?}"
    );
}

#[test]
fn the_hash_of_a_group_is_the_digest_of_its_content() {
    let groups = find_duplicates_with_progress(
        vec![probe("/b", "abc", 1), probe("/a", "abc", 2)],
        0,
    );
    assert_eq!(
        groups[0].hash,
        "6437b3ac38465133ffb63b75273a8db548c558465d79db03fd359c6cd5bd9d85"
    );
    assert_eq!(groups[0].hash, to_hex(&hash_text("abc")));
    // Files are in path order, so that the first one, which is kept, is always the same.
    assert_eq!(names(&groups[0]), vec!["/a".to_string(), "/b".to_string()]);
}

#[test]
fn groups_that_waste_most_come_first() {
    let groups = find_duplicates(
        vec![
            probe("/1", "aa", 1),
            probe("/2", "bbbbbb", 2),
            probe("/3", "aa", 3),
            probe("/4", "bbbbbb", 4),
            probe("/5", "aa", 5),
            probe("/6", "aa", 6),
            probe("/7", "aa", 7),
        ],
        0,
    );
    let wasted: Vec<u64> = groups.iter().map(|g| g.wasted).collect();
    assert_eq!(wasted, vec![8, 6]);
    assert_eq!(groups[0].files.len(), 5);
}

#[test]
fn small_and_empty_files_are_ignored() {
    let probes = || {
        vec![
            probe("/1", "", 1),
            probe("/2", "", 2),
            probe("/3", "xy", 3),
            probe("/4", "xy", 4),
        ]
    };
    assert_eq!(find_duplicates(probes(), 0).len(), 1);
    assert_eq!(find_duplicates(probes(), 2).len(), 1);
    assert!(find_duplicates(probes(), 3).is_empty());
}

#[test]
fn same_size_and_first_block_are_not_enough() {
    let a = format!("{}A", "x".repeat(5000));
    let b = format!("{}B", "x".repeat(5000));
    assert!(find_duplicates(vec![probe("/1", &a, 1), probe("/2", &b, 2)], 0).is_empty());
    // The first block is the same, so only the whole content tells them apart.
    let groups = prefix_groups(vec![probe("/1", &a, 1), probe("/2", &b, 2)]);
    assert_eq!(groups.len(), 1);
    assert_eq!(groups[0].len(), 2);
}

#[test]
fn files_that_could_not_be_read_are_in_no_group() {
    let mut no_digest = probe("/2", "same", 2);
    no_digest.digest = None;
    assert!(find_duplicates(vec![probe("/1", "same", 1), no_digest], 0).is_empty());
    let mut no_prefix = probe("/2", "same", 2);
    no_prefix.prefix = None;
    assert!(find_duplicates(vec![probe("/1", "same", 1), no_prefix], 0).is_empty());
}

#[test]
fn paths_without_identity_are_kept() {
    let mut a = probe("/1", "same", 1);
    let mut b = probe("/2", "same", 1);
    a.id = None;
    b.id = None;
    assert_eq!(find_duplicates(vec![a, b], 0).len(), 1);
}

#[test]
fn wasted_bytes_do_not_overflow() {
    let big = |name: &str, id: u64| {
        let mut p = probe(name, "big", id);
        p.size = u64::MAX;
        p
    };
    let groups = find_duplicates(vec![big("/1", 1), big("/2", 2), big("/3", 3)], 0);
    assert_eq!(groups[0].wasted, u64::MAX);
}

#[test]
fn identical_files_share_exactly_one_group() {
    let groups = find_duplicates(
        vec![
            probe("/1", "one", 1),
            probe("/2", "two", 2),
            probe("/3", "one", 3),
            probe("/4", "two", 4),
            probe("/5", "solo", 5),
        ],
        0,
    );
    let mut all: Vec<String> = groups.iter().flat_map(names).collect();
    all.sort();
    assert_eq!(all, vec!["/1", "/2", "/3", "/4"]);
    for g in &groups {
        let both = names(g);
        assert!(both == vec!["/1", "/3"] || both == vec!["/2", "/4"]);
    }
}

#[test]
fn sizes_that_occur_once_need_no_probing() {
    let file = |name: &str, size: u64| {
        Probe::new(FileEntry { path: path(name), size, logical_size: size })
    };
    let groups = size_groups(
        vec![file("/1", 5), file("/2", 6), file("/3", 5), file("/4", 0), file("/5", 0)],
        0,
    );
    assert_eq!(groups.len(), 1);
    let found: Vec<String> = groups[0].iter().map(|p| shown(&p.path)).collect();
    assert_eq!(found, vec!["/1", "/3"]);
    assert!(size_groups(vec![file("/1", 5), file("/3", 5)], 6).is_empty());
}

#[test]
fn only_physically_different_files_are_worth_hashing() {
    let links = || vec![probe("/1", "x", 1), probe("/2", "x", 1), probe("/3", "x", 2)];
    let kept: Vec<String> = dedup_hard_links(links()).iter().map(|p| shown(&p.path)).collect();
    assert_eq!(kept, vec!["/1", "/3"]);
    let going = Progress::default();
    assert_eq!(worth_hashing(links(), &going).len(), 2);
    assert!(worth_hashing(vec![probe("/1", "x", 1), probe("/2", "x", 1)], &going).is_empty());
    let mut stopped = Progress::default();
    stopped.cancel();
    assert!(worth_hashing(links(), &stopped).is_empty());
}

#[test]
fn probing_in_stages_finds_every_group() {
    let files = || {
        vec![
            probe("/a", "same", 1),
            probe("/b", "same", 2),
            probe("/link", "same", 2),
            probe("/c", "diff", 3),
            probe("/d", "longer one", 4),
            probe("/e", "longer one", 5),
            probe("/f", "longer two", 6),
            probe("/alone", "the only one of its size", 7),
        ]
    };
    let progress = Progress::default();
    let mut left: Vec<Probe> = Vec::new();
    for group in size_groups(files(), 1) {
        for class in prefix_groups(worth_hashing(group, &progress)) {
            left.extend(class);
        }
    }
    assert_eq!(left.len(), 4);
    let staged = find_duplicates_with_progress(left, 1);
    let full = find_duplicates_with_progress(files(), 1);
    let all = |groups: &Vec<DupGroup>| -> Vec<(String, Vec<String>)> {
        groups.iter().map(|g| (g.hash.clone(), names(g))).collect()
    };
    assert_eq!(full.len(), 2);
    assert_eq!(all(&staged), all(&full));
}

#[test]
fn a_larger_minimum_only_drops_smaller_groups() {
    let files = || {
        vec![
            probe("/a1", "aaaa", 1),
            probe("/a2", "aaaa", 2),
            probe("/b1", "bbbbbbbb", 3),
            probe("/b2", "bbbbbbbb", 4),
            probe("/e1", "", 5),
            probe("/e2", "", 6),
        ]
    };
    let sizes = |min: u64| -> Vec<u64> {
        find_duplicates_with_progress(files(), min).iter().map(|g| g.size).collect()
    };
    assert_eq!(sizes(0), vec![8, 4]);
    assert_eq!(sizes(1), sizes(0));
    assert_eq!(sizes(4), vec![8, 4]);
    assert_eq!(sizes(5), vec![8]);
    assert!(sizes(9).is_empty());
}

//! Reclaiming duplicates, on a filesystem that is kept in memory.
use std::collections::BTreeMap;

use diskghost::dupes::{find_duplicates, DupGroup, Probe};
use diskghost::hash::{hash_prefix, hash_text};
use diskghost::reclaim::{decide, follow, reclaim, reclaim_job, Next, Step, Verdict};
use diskghost::{FileEntry, FilePath, PathPart, PathStyle, ReclaimAction, ReclaimReport};

fn path(text: &str) -> FilePath {
    let mut parts: Vec<PathPart> = Vec::new();
    if text.starts_with('/') {
        parts.push(PathPart::RootDir);
    }
    for name in text.split('/').filter(|n| !n.is_empty()) {
        parts.push(PathPart::Normal(name.as_bytes().to_vec()));
    }
    FilePath::new(parts)
}

fn shown(p: &FilePath) -> String {
    p.display(&PathStyle::new("/"))
}

/// File names with the number of the physical file they lead to.
struct Disk {
    files: BTreeMap<String, u64>,
    can_link: bool,
    can_delete: bool,
    steps: usize,
}

impl Disk {
    fn with(names: &[&str]) -> Disk {
        let files = names.iter().enumerate().map(|(i, n)| (n.to_string(), i as u64)).collect();
        Disk { files, can_link: true, can_delete: true, steps: 0 }
    }

    fn has(&self, name: &str) -> bool {
        self.files.contains_key(name)
    }

    fn perform(&mut self, step: &Step) -> Result<(), String> {
        self.steps += 1;
        match step {
            Step::Delete { path } | Step::Trash { path } => {
                if !self.can_delete {
                    return Err("denied".to_string());
                }
                self.files.remove(&shown(path)).map(|_| ()).ok_or("no such file".to_string())
            },
            Step::Link { keep, temp, path: _ } => {
                if !self.can_link {
                    return Err("no links here".to_string());
                }
                if self.has(&shown(temp)) {
                    return Err("file exists".to_string());
                }
                let id = self.files[&shown(keep)];
                self.files.insert(shown(temp), id);
                Ok(())
            },
            Step::Replace { temp, path } => {
                let id = self.files.remove(&shown(temp)).ok_or("no such file".to_string())?;
                self.files.insert(shown(path), id);
                Ok(())
            },
            Step::Discard { temp, error: _ } => {
                self.files.remove(&shown(temp));
                Ok(())
            },
        }
    }

    fn deal_with(&mut self, keep: &FilePath, p: &FilePath, action: ReclaimAction, dry: bool)
        -> Result<(), String> {
        let mut step = match decide(keep, p, action, dry) {
            Verdict::Keep => return Ok(()),
            Verdict::Count => return Ok(()),
            Verdict::Act(step) => step,
        };
        loop {
            let outcome = self.perform(&step);
            match follow(step, outcome) {
                Next::Then(s) => step = s,
                Next::Done(r) => return r,
            }
        }
    }

    fn reclaim(
        &mut self,
        keep: &str,
        remove: &[&str],
        size: u64,
        action: ReclaimAction,
        dry: bool,
    ) -> ReclaimReport {
        let keep = path(keep);
        let remove: Vec<FilePath> = remove.iter().map(|p| path(p)).collect();
        let results: Vec<Result<(), String>> =
            remove.iter().map(|p| self.deal_with(&keep, p, action, dry)).collect();
        reclaim(&keep, &remove, size, dry, &results, &PathStyle::new("/"))
    }
}

#[test]
fn reclaim_dry_run_then_delete() {
    let mut disk = Disk::with(&["/d/keep.bin", "/d/dup1.bin", "/d/dup2.bin"]);
    let body = b"reclaimable duplicate content, definitely long enough here";
    let size = body.len() as u64;
    let remove = ["/d/dup1.bin", "/d/dup2.bin"];

    // Dry run: nothing deleted, but reported.
    let dry = disk.reclaim("/d/keep.bin", &remove, size, ReclaimAction::Delete, true);
    assert_eq!(dry.removed, 2);
    assert_eq!(dry.reclaimed, 2 * size);
    assert!(dry.errors.is_empty());
    assert!(disk.has("/d/dup1.bin") && disk.has("/d/dup2.bin") && disk.has("/d/keep.bin"));
    assert_eq!(disk.steps, 0);

    // Real delete: dups gone, keep stays.
    let done = disk.reclaim("/d/keep.bin", &remove, size, ReclaimAction::Delete, false);
    assert_eq!(done.removed, 2);
    assert_eq!(done.reclaimed, 2 * size);
    assert!(done.errors.is_empty());
    assert!(!disk.has("/d/dup1.bin") && !disk.has("/d/dup2.bin"));
    assert!(disk.has("/d/keep.bin"));
}

#[test]
fn reclaim_hardlink_dedups_without_loss() {
    let body = "hardlink reclaim content, long enough to be a real file here";
    let mut disk = Disk::with(&["/d/keep.bin", "/d/dup.bin"]);
    let rep = disk.reclaim(
        "/d/keep.bin",
        &["/d/dup.bin"],
        body.len() as u64,
        ReclaimAction::Hardlink,
        false,
    );
    assert!(rep.errors.is_empty());
    assert_eq!(rep.removed, 1);
    assert!(disk.has("/d/keep.bin") && disk.has("/d/dup.bin"));
    assert_eq!(disk.files.len(), 2);
    let probes = disk
        .files
        .iter()
        .map(|(name, id)| {
            let size = body.len() as u64;
            let mut p = Probe::new(FileEntry { path: path(name), size, logical_size: size });
            p.id = Some(*id);
            p.prefix = Some(hash_prefix(&body.as_bytes().to_vec()));
            p.digest = Some(hash_text(body));
            p
        })
        .collect();
    assert!(find_duplicates(probes, 1).is_empty(), "should be hard-linked now");

    // Without hard links this errors, but never loses data.
    let mut disk = Disk::with(&["/d/keep.bin", "/d/dup.bin"]);
    disk.can_link = false;
    let rep = disk.reclaim("/d/keep.bin", &["/d/dup.bin"], 60, ReclaimAction::Hardlink, false);
    assert_eq!(rep.removed, 0);
    assert_eq!(rep.errors, vec!["/d/dup.bin: no links here".to_string()]);
    assert!(disk.has("/d/dup.bin"), "dup must survive a failed hardlink reclaim");
    assert_eq!(disk.files["/d/dup.bin"], 1);
    assert_eq!(disk.files.len(), 2);
}

#[test]
fn reclaim_skips_keep_listed_in_remove() {
    let mut disk = Disk::with(&["/d/k.bin", "/d/d.bin"]);
    let rep = disk.reclaim(
        "/d/k.bin",
        &["/d/k.bin", "/d/d.bin"],
        40,
        ReclaimAction::Delete,
        false,
    );
    assert_eq!(rep.removed, 1);
    assert!(disk.has("/d/k.bin"));
    assert!(!disk.has("/d/d.bin"));
    assert_eq!(rep.reclaimed, 40);
}

#[test]
fn trashing_acts_like_deleting() {
    let mut disk = Disk::with(&["/k", "/a"]);
    let rep = disk.reclaim("/k", &["/a"], 3, ReclaimAction::Trash, false);
    assert_eq!((rep.removed, rep.reclaimed, rep.dry_run), (1, 3, false));
    disk.can_delete = false;
    let rep = disk.reclaim("/k", &["/a"], 3, ReclaimAction::Trash, false);
    assert_eq!(rep.errors, vec!["/a: denied".to_string()]);
}

#[test]
fn a_replacement_is_made_under_a_temporary_name() {
    let temp_of = |p: FilePath| match decide(&path("/keep"), &p, ReclaimAction::Hardlink, false) {
        Verdict::Act(Step::Link { keep: _, temp, path: _ }) => shown(&temp),
        _ => panic!("a link was expected"),
    };
    assert_eq!(temp_of(path("/a/b.txt")), "/a/b.txt.dghtmp");
    assert_eq!(temp_of(path("/")), "/.dghtmp");
    assert_eq!(temp_of(FilePath::new(vec![])), ".dghtmp");
    assert_eq!(temp_of(FilePath::new(vec![PathPart::CurDir])), "..dghtmp");
    assert_eq!(temp_of(FilePath::new(vec![PathPart::ParentDir])), "...dghtmp");
}

#[test]
fn a_failed_replacement_is_tidied_up() {
    let link = Step::Link { keep: path("/k"), temp: path("/a.dghtmp"), path: path("/a") };
    let replace = match follow(link, Ok(())) {
        Next::Then(s) => s,
        Next::Done(_) => panic!("there is more to do"),
    };
    assert!(matches!(&replace, Step::Replace { .. }));
    let discard = match follow(replace, Err("busy".to_string())) {
        Next::Then(s) => s,
        Next::Done(_) => panic!("there is more to do"),
    };
    assert!(matches!(&discard, Step::Discard { .. }));
    // Whether tidying up works or not, the first failure is reported.
    match follow(discard, Ok(())) {
        Next::Done(Err(e)) => assert_eq!(e, "busy"),
        _ => panic!("the failure was lost"),
    }
}

#[test]
fn a_file_that_has_the_temporary_name_stays() {
    let mut disk = Disk::with(&["/k", "/a", "/a.dghtmp"]);
    let before = disk.files.clone();
    let rep = disk.reclaim("/k", &["/a"], 3, ReclaimAction::Hardlink, false);
    assert_eq!(rep.errors, vec!["/a: file exists".to_string()]);
    assert_eq!(disk.files, before);
    // Even where it is the kept file itself.
    let mut disk = Disk::with(&["/a.dghtmp", "/a"]);
    let before = disk.files.clone();
    let rep = disk.reclaim("/a.dghtmp", &["/a"], 3, ReclaimAction::Hardlink, false);
    assert_eq!((rep.removed, rep.errors.len()), (0, 1));
    assert_eq!(disk.files, before);
}

#[test]
fn a_failed_link_is_the_end_of_it() {
    let link = Step::Link { keep: path("/k"), temp: path("/a.dghtmp"), path: path("/a") };
    match follow(link, Err("no links here".to_string())) {
        Next::Done(Err(e)) => assert_eq!(e, "no links here"),
        _ => panic!("nothing is left to do"),
    }
}

#[test]
fn reclaimed_bytes_do_not_overflow() {
    let keep = path("/k");
    let remove = vec![path("/a"), path("/b")];
    let r = reclaim(&keep, &remove, u64::MAX, true, &vec![], &PathStyle::new("/"));
    assert_eq!((r.removed, r.reclaimed), (2, u64::MAX));
    assert!(r.dry_run);
}

#[test]
fn every_copy_is_counted_or_reported() {
    let keep = path("/k");
    let remove = vec![path("/a"), path("/k"), path("/b"), path("/c")];
    let results =
        vec![Ok(()), Err("ignored".to_string()), Err("denied".to_string()), Ok(())];
    let r = reclaim(&keep, &remove, 10, false, &results, &PathStyle::new("/"));
    assert_eq!(r.removed, 2);
    assert_eq!(r.reclaimed, 20);
    assert_eq!(r.errors, vec!["/b: denied".to_string()]);
}

#[test]
fn the_first_file_of_a_group_is_kept() {
    let group = |files: Vec<FilePath>| DupGroup {
        hash: "0123456789abcdef".to_string(),
        size: 1,
        files,
        wasted: 1,
    };
    let (keep, rest) = reclaim_job(&group(vec![path("/a"), path("/b"), path("/c")])).unwrap();
    assert_eq!(shown(&keep), "/a");
    assert_eq!(rest.iter().map(shown).collect::<Vec<String>>(), vec!["/b", "/c"]);
    assert!(reclaim_job(&group(vec![path("/a")])).is_none());
}

#[test]
fn reports_of_several_groups_are_summed_up() {
    let mut all = ReclaimReport::empty(false);
    let one = |removed: usize, error: &str| ReclaimReport {
        removed,
        reclaimed: 10,
        errors: vec![error.to_string()],
        dry_run: false,
    };
    all.merge(one(1, "x"));
    all.merge(one(2, "y"));
    assert_eq!((all.removed, all.reclaimed, all.dry_run), (3, 20, false));
    assert_eq!(all.errors, vec!["x".to_string(), "y".to_string()]);
}

#[test]
fn reports_on_copies_join_without_overflow() {
    let one = |removed: usize, reclaimed: u64, errors: Vec<String>| ReclaimReport {
        removed,
        reclaimed,
        errors,
        dry_run: false,
    };
    let mut job = ReclaimReport::empty(false);
    job.join(one(1, u64::MAX - 1, vec![]));
    assert_eq!((job.removed, job.reclaimed), (1, u64::MAX - 1));
    job.join(one(0, 0, vec!["x: no".to_string()]));
    job.join(one(1, 5, vec!["y: no".to_string()]));
    assert_eq!((job.removed, job.reclaimed), (2, u64::MAX));
    assert_eq!(job.errors, vec!["x: no".to_string(), "y: no".to_string()]);
}

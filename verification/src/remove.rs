//! Removing a file or a whole directory tree: what is removed, in which order, and
//! what is reported of it. The removals themselves are performed by the caller.
use vstd::prelude::*;

use crate::path::{FilePath, Part};
use crate::progress::Progress;
use crate::shown::{PathStyle, Style};

verus! {

/// How to remove a path with [`remove_path`].
#[derive(Debug, Clone, Copy, PartialEq, Eq, Structural)]
pub enum RemoveMode {
    /// Permanently delete (files unlinked in parallel for speed).
    Delete,
    /// Move to the OS trash / recycle bin (reversible).
    Trash,
}

/// Outcome of a [`remove_path`] call.
#[derive(Debug)]
pub struct RemoveReport {
    pub root: FilePath,
    /// Files removed (or, in a dry run, that would be removed).
    pub files: u64,
    /// Directories removed (or that would be).
    pub dirs: u64,
    /// Total bytes freed (or that would be).
    pub bytes: u64,
    pub errors: Vec<String>,
    pub dry_run: bool,
}

/// One entry of the tree to remove. Links are never followed: a link is an entry that
/// is no directory.
#[derive(Debug)]
pub enum RemoveEntry {
    /// A directory.
    Dir(FilePath),
    /// Anything else, with its length if that could be read.
    Other { path: FilePath, len: Option<u64> },
    /// An entry that could not be read; it is skipped.
    Unreadable,
}

/// An entry, as a mathematical value.
#[verifier::ext_equal]
pub enum RemoveEntryRec {
    Dir(Seq<Part>),
    Other { path: Seq<Part>, len: Option<u64> },
    Unreadable,
}

impl View for RemoveEntry {
    type V = RemoveEntryRec;

    open spec fn view(&self) -> RemoveEntryRec {
        match self {
            RemoveEntry::Dir(path) => RemoveEntryRec::Dir(path@),
            RemoveEntry::Other { path, len } => RemoveEntryRec::Other { path: path@, len: *len },
            RemoveEntry::Unreadable => RemoveEntryRec::Unreadable,
        }
    }
}

/// What there is to remove.
#[derive(Debug)]
pub struct Removal {
    pub files: Vec<FilePath>,
    /// The length of each file, 0 where it could not be read.
    pub lens: Vec<u64>,
    /// The directories, the one that everything lies in among them.
    pub dirs: Vec<FilePath>,
}

/// What there is to remove, as a mathematical value.
#[verifier::ext_equal]
pub struct RemovalRec {
    pub files: Seq<Seq<Part>>,
    pub lens: Seq<u64>,
    pub dirs: Seq<Seq<Part>>,
}

impl View for Removal {
    type V = RemovalRec;

    open spec fn view(&self) -> RemovalRec {
        RemovalRec {
            files: crate::sort::views(self.files@),
            lens: self.lens@,
            dirs: crate::sort::views(self.dirs@),
        }
    }
}

/// The number, or the largest one that fits.
pub open spec fn capped(n: nat) -> u64 {
    if n <= u64::MAX {
        n as u64
    } else {
        u64::MAX
    }
}

/// The sum of some lengths.
pub open spec fn total_len(lens: Seq<u64>) -> nat
    decreases lens.len(),
{
    if lens.len() == 0 {
        0
    } else {
        total_len(lens.drop_last()) + lens.last() as nat
    }
}

impl RemovalRec {
    /// Nothing to remove yet.
    pub open spec fn empty() -> RemovalRec {
        RemovalRec { files: Seq::empty(), lens: Seq::empty(), dirs: Seq::empty() }
    }

    /// With one more entry.
    pub open spec fn with(self, e: RemoveEntryRec) -> RemovalRec {
        match e {
            RemoveEntryRec::Dir(path) => RemovalRec { dirs: self.dirs.push(path), ..self },
            RemoveEntryRec::Other { path, len } => RemovalRec {
                files: self.files.push(path),
                lens: self.lens.push(
                    match len {
                        Some(n) => n,
                        None => 0,
                    },
                ),
                ..self
            },
            RemoveEntryRec::Unreadable => self,
        }
    }

    /// With a list of entries.
    pub open spec fn with_all(self, entries: Seq<RemoveEntryRec>) -> RemovalRec
        decreases entries.len(),
    {
        if entries.len() == 0 {
            self
        } else {
            self.with_all(entries.drop_last()).with(entries.last())
        }
    }
}

impl Removal {
    /// Nothing to remove yet.
    pub fn new() -> (r: Removal)
        ensures
            r@ == RemovalRec::empty(),
    {
        let r = Removal { files: Vec::new(), lens: Vec::new(), dirs: Vec::new() };
        assert(r@ =~= RemovalRec::empty());
        r
    }

    /// A single file, or a link: just that entry, with its length if that could be read.
    pub fn single(path: &FilePath, len: Option<u64>) -> (r: Removal)
        ensures
            r@ == RemovalRec::empty().with(RemoveEntryRec::Other { path: path@, len }),
    {
        let mut files: Vec<FilePath> = Vec::new();
        files.push(path.clone());
        let mut lens: Vec<u64> = Vec::new();
        match len {
            Some(n) => {
                lens.push(n);
            },
            None => {
                lens.push(0);
            },
        }
        let r = Removal { files, lens, dirs: Vec::new() };
        assert(r@ =~= RemovalRec::empty().with(RemoveEntryRec::Other { path: path@, len }));
        r
    }

    /// Takes in one entry of the tree. Returns `false`, and takes nothing in, once
    /// cancellation has been requested: the enumeration is then over.
    pub fn visit(&mut self, entry: RemoveEntry, progress: &Progress) -> (go_on: bool)
        ensures
            go_on == !progress@.cancelled,
            !go_on ==> final(self)@ == old(self)@,
            go_on ==> final(self)@ == old(self)@.with(entry@),
    {
        if progress.cancelled() {
            return false;
        }
        match entry {
            RemoveEntry::Dir(path) => {
                self.dirs.push(path);
            },
            RemoveEntry::Other { path, len } => {
                match len {
                    Some(n) => {
                        self.lens.push(n);
                    },
                    None => {
                        self.lens.push(0);
                    },
                }
                self.files.push(path);
            },
            RemoveEntry::Unreadable => {},
        }
        assert(self@ =~= old(self)@.with(entry@));
        true
    }
}

/// What is to be done to remove a path.
#[derive(Debug)]
pub enum RemovePlan {
    /// Nothing: this is a dry run.
    Nothing,
    /// Move the path to the trash.
    Trash,
    /// Unlink all files, in any order, then remove the directories level by level. The
    /// directories of one level can be removed in any order.
    Delete { levels: Vec<Vec<FilePath>> },
}

/// Deeper paths first.
pub open spec fn deeper() -> spec_fn(Seq<Part>, Seq<Part>) -> bool {
    |a: Seq<Part>, b: Seq<Part>| a.len() >= b.len()
}

/// Splits directories into levels, deepest first.
pub fn by_depth(dirs: Vec<FilePath>) -> (r: Vec<Vec<FilePath>>)
    ensures
        crate::sort::is_grouping(
            crate::sort::views(dirs@),
            crate::sort::group_views(r@),
            deeper(),
        ),
{
    let f = |a: &FilePath, b: &FilePath| -> (r: bool)
        ensures
            r == deeper()(a@, b@),
        { a.len() >= b.len() };
    crate::sort::group_by(dirs, &f, Ghost(deeper()))
}

/// Decides what is to be done to remove what was found.
pub fn plan_removal(found: &Removal, mode: RemoveMode, dry_run: bool) -> (r: RemovePlan)
    ensures
        (match r {
            RemovePlan::Nothing => dry_run,
            RemovePlan::Trash => !dry_run && mode == RemoveMode::Trash,
            RemovePlan::Delete { levels } => !dry_run && mode == RemoveMode::Delete
                && crate::sort::is_grouping(
                found@.dirs,
                crate::sort::group_views(levels@),
                deeper(),
            ),
        }),
{
    if dry_run {
        return RemovePlan::Nothing;
    }
    match mode {
        RemoveMode::Trash => RemovePlan::Trash,
        RemoveMode::Delete => {
            let mut dirs: Vec<FilePath> = Vec::new();
            let mut i: usize = 0;
            while i < found.dirs.len()
                invariant
                    i <= found.dirs.len(),
                    dirs.len() == i,
                    forall|j: int| 0 <= j < i ==> (#[trigger] dirs@[j])@ == found.dirs@[j]@,
                decreases found.dirs.len() - i,
            {
                dirs.push(found.dirs[i].clone());
                i += 1;
            }
            assert(crate::sort::views(dirs@) =~= found@.dirs);
            RemovePlan::Delete { levels: by_depth(dirs) }
        },
    }
}

/// How unlinking one file came out.
#[derive(Debug)]
pub enum FileOutcome {
    /// It was not tried any more after cancellation had been requested.
    Skipped,
    Removed,
    Failed(String),
}

/// How a removal came out.
#[derive(Debug)]
pub enum RemoveOutcome {
    /// Nothing was done.
    Nothing,
    /// The path was moved to the trash, or that failed.
    Trashed(Result<(), String>),
    /// Files were unlinked and directories removed, with what came of each.
    Deleted {
        files: Vec<FileOutcome>,
        /// For each level of the plan, what came of its directories.
        levels: Vec<Vec<Result<(), String>>>,
    },
}

/// Notes how unlinking one file came out, `None` if it was not tried any more. A removed
/// file counts towards `progress`.
pub fn note_file(result: Option<Result<(), String>>, progress: &mut Progress) -> (r: FileOutcome)
    ensures
        r == (match result {
            None => FileOutcome::Skipped,
            Some(Ok(_)) => FileOutcome::Removed,
            Some(Err(e)) => FileOutcome::Failed(e),
        }),
        final(progress)@ == if r is Removed {
            old(progress)@.advanced(1, 0)
        } else {
            old(progress)@
        },
{
    match result {
        None => FileOutcome::Skipped,
        Some(Ok(_)) => {
            progress.advance(1, 0);
            FileOutcome::Removed
        },
        Some(Err(e)) => FileOutcome::Failed(e),
    }
}

/// What is reported of the files that could not be unlinked, in their order.
pub open spec fn file_errors(
    files: Seq<Seq<Part>>,
    outcomes: Seq<FileOutcome>,
    style: Style,
) -> Seq<Seq<char>>
    decreases files.len(),
{
    if files.len() == 0 {
        Seq::empty()
    } else {
        let n = files.len() - 1;
        let before = file_errors(files.drop_last(), outcomes, style);
        match outcomes[n] {
            FileOutcome::Failed(e) => before.push(
                crate::reclaim::error_text(files[n], e@, style),
            ),
            _ => before,
        }
    }
}

/// What is reported of the directories of a level that could not be removed.
pub open spec fn dir_errors(
    dirs: Seq<Seq<Part>>,
    outcomes: Seq<Result<(), String>>,
    style: Style,
) -> Seq<Seq<char>>
    decreases dirs.len(),
{
    if dirs.len() == 0 {
        Seq::empty()
    } else {
        let n = dirs.len() - 1;
        let before = dir_errors(dirs.drop_last(), outcomes, style);
        match outcomes[n] {
            Err(e) => before.push(crate::reclaim::error_text(dirs[n], e@, style)),
            Ok(_) => before,
        }
    }
}

/// What is reported of all levels, one after the other.
pub open spec fn level_errors(
    levels: Seq<Seq<Seq<Part>>>,
    outcomes: Seq<Vec<Result<(), String>>>,
    style: Style,
) -> Seq<Seq<char>>
    decreases levels.len(),
{
    if levels.len() == 0 {
        Seq::empty()
    } else {
        let n = levels.len() - 1;
        level_errors(levels.drop_last(), outcomes, style) + dir_errors(levels[n], outcomes[n]@, style)
    }
}

/// The outcome fits the plan: there is one for everything that was to be done.
pub open spec fn fits(plan: RemovePlan, found: RemovalRec, outcome: RemoveOutcome) -> bool {
    match plan {
        RemovePlan::Nothing => outcome is Nothing,
        RemovePlan::Trash => outcome is Trashed,
        RemovePlan::Delete { levels } => match outcome {
            RemoveOutcome::Deleted { files, levels: results } => {
                &&& files@.len() == found.files.len()
                &&& found.lens.len() == found.files.len()
                &&& results@.len() == levels@.len()
                &&& forall|g: int|
                    0 <= g < levels@.len() ==> (#[trigger] results@[g])@.len() == levels@[g]@.len()
            },
            _ => false,
        },
    }
}

/// The messages of a removal.
pub open spec fn removal_errors(
    root: Seq<Part>,
    found: RemovalRec,
    plan: RemovePlan,
    outcome: RemoveOutcome,
    style: Style,
) -> Seq<Seq<char>> {
    match outcome {
        RemoveOutcome::Nothing => Seq::empty(),
        RemoveOutcome::Trashed(Ok(_)) => Seq::empty(),
        RemoveOutcome::Trashed(Err(e)) => seq![crate::reclaim::error_text(root, e@, style)],
        RemoveOutcome::Deleted { files, levels } => file_errors(found.files, files@, style)
            + level_errors(crate::sort::group_views(plan->levels@), levels@, style),
    }
}

/// The files that were unlinked.
pub open spec fn unlinked(outcomes: Seq<FileOutcome>) -> Seq<FileOutcome> {
    outcomes.filter(|o: FileOutcome| o is Removed)
}

/// The bytes of the files that were unlinked.
pub open spec fn unlinked_len(lens: Seq<u64>, outcomes: Seq<FileOutcome>) -> nat
    decreases outcomes.len(),
{
    if outcomes.len() == 0 {
        0
    } else {
        let n = outcomes.len() - 1;
        unlinked_len(lens, outcomes.drop_last()) + if outcomes[n] is Removed {
            lens[n] as nat
        } else {
            0
        }
    }
}

/// The directories of a level that were removed.
pub open spec fn taken_down(outcomes: Seq<Result<(), String>>) -> Seq<Result<(), String>> {
    outcomes.filter(|o: Result<(), String>| o is Ok)
}

/// The number of directories that were removed, over all levels.
pub open spec fn dirs_taken_down(levels: Seq<Vec<Result<(), String>>>) -> nat
    decreases levels.len(),
{
    if levels.len() == 0 {
        0
    } else {
        dirs_taken_down(levels.drop_last()) + taken_down(levels.last()@).len()
    }
}

/// The files that a removal removed or, in a dry run, would remove.
pub open spec fn files_removed(found: RemovalRec, outcome: RemoveOutcome) -> nat {
    match outcome {
        RemoveOutcome::Nothing => found.files.len(),
        RemoveOutcome::Trashed(Ok(_)) => found.files.len(),
        RemoveOutcome::Trashed(Err(_)) => 0,
        RemoveOutcome::Deleted { files, levels } => unlinked(files@).len(),
    }
}

/// The directories that a removal removed or would remove.
pub open spec fn dirs_removed(found: RemovalRec, outcome: RemoveOutcome) -> nat {
    match outcome {
        RemoveOutcome::Nothing => found.dirs.len(),
        RemoveOutcome::Trashed(Ok(_)) => found.dirs.len(),
        RemoveOutcome::Trashed(Err(_)) => 0,
        RemoveOutcome::Deleted { files, levels } => dirs_taken_down(levels@),
    }
}

/// The bytes that a removal freed or would free.
pub open spec fn bytes_freed(found: RemovalRec, outcome: RemoveOutcome) -> nat {
    match outcome {
        RemoveOutcome::Nothing => total_len(found.lens),
        RemoveOutcome::Trashed(Ok(_)) => total_len(found.lens),
        RemoveOutcome::Trashed(Err(_)) => 0,
        RemoveOutcome::Deleted { files, levels } => unlinked_len(found.lens, files@),
    }
}

/// The sum, or the largest number where it does not fit.
pub(crate) fn add_capped(a: u64, b: u64) -> (r: u64)
    ensures
        r == capped((a + b) as nat),
{
    match a.checked_add(b) {
        Some(sum) => sum,
        None => u64::MAX,
    }
}

/// The sum of all lengths.
fn sum_lens(lens: &Vec<u64>) -> (r: u64)
    ensures
        r == capped(total_len(lens@)),
{
    let mut sum: u64 = 0;
    let mut i: usize = 0;
    while i < lens.len()
        invariant
            i <= lens.len(),
            sum == capped(total_len(lens@.take(i as int))),
        decreases lens.len() - i,
    {
        assert(lens@.take(i + 1).drop_last() =~= lens@.take(i as int));
        sum = add_capped(sum, lens[i]);
        i += 1;
    }
    assert(lens@.take(i as int) =~= lens@);
    sum
}

/// The number and the bytes of the files that were unlinked.
fn count_unlinked(lens: &Vec<u64>, outcomes: &Vec<FileOutcome>) -> (r: (u64, u64))
    requires
        lens@.len() == outcomes@.len(),
    ensures
        r.0 == unlinked(outcomes@).len(),
        r.1 == capped(unlinked_len(lens@, outcomes@)),
{
    let mut files: u64 = 0;
    let mut bytes: u64 = 0;
    let mut i: usize = 0;
    proof {
        reveal(Seq::filter);
    }
    while i < outcomes.len()
        invariant
            i <= outcomes.len(),
            lens@.len() == outcomes@.len(),
            files <= i,
            files == unlinked(outcomes@.take(i as int)).len(),
            bytes == capped(unlinked_len(lens@, outcomes@.take(i as int))),
        decreases outcomes.len() - i,
    {
        proof {
            reveal(Seq::filter);
            assert(outcomes@.take(i + 1).drop_last() =~= outcomes@.take(i as int));
        }
        match &outcomes[i] {
            FileOutcome::Removed => {
                files += 1;
                bytes = add_capped(bytes, lens[i]);
            },
            _ => {},
        }
        i += 1;
    }
    assert(outcomes@.take(i as int) =~= outcomes@);
    (files, bytes)
}

/// The number of directories of a level that were removed.
fn count_taken_down(outcomes: &Vec<Result<(), String>>) -> (r: u64)
    ensures
        r == taken_down(outcomes@).len(),
{
    let mut dirs: u64 = 0;
    let mut i: usize = 0;
    proof {
        reveal(Seq::filter);
    }
    while i < outcomes.len()
        invariant
            i <= outcomes.len(),
            dirs <= i,
            dirs == taken_down(outcomes@.take(i as int)).len(),
        decreases outcomes.len() - i,
    {
        proof {
            reveal(Seq::filter);
            assert(outcomes@.take(i + 1).drop_last() =~= outcomes@.take(i as int));
        }
        match &outcomes[i] {
            Ok(_) => {
                dirs += 1;
            },
            Err(_) => {},
        }
        i += 1;
    }
    assert(outcomes@.take(i as int) =~= outcomes@);
    dirs
}

/// The number of directories that were removed, over all levels.
fn count_dirs(levels: &Vec<Vec<Result<(), String>>>) -> (r: u64)
    ensures
        r == capped(dirs_taken_down(levels@)),
{
    let mut dirs: u64 = 0;
    let mut g: usize = 0;
    while g < levels.len()
        invariant
            g <= levels.len(),
            dirs == capped(dirs_taken_down(levels@.take(g as int))),
        decreases levels.len() - g,
    {
        assert(levels@.take(g + 1).drop_last() =~= levels@.take(g as int));
        dirs = add_capped(dirs, count_taken_down(&levels[g]));
        g += 1;
    }
    assert(levels@.take(g as int) =~= levels@);
    dirs
}

/// Collects the messages of files that could not be unlinked.
fn collect_file_errors(
    files: &Vec<FilePath>,
    outcomes: &Vec<FileOutcome>,
    style: &PathStyle,
    errors: &mut Vec<String>,
)
    requires
        outcomes@.len() == files@.len(),
    ensures
        crate::sort::views(final(errors)@) == crate::sort::views(old(errors)@) + file_errors(
            crate::sort::views(files@),
            outcomes@,
            style@,
        ),
{
    let ghost all = crate::sort::views(files@);
    let ghost start = crate::sort::views(errors@);
    let mut i: usize = 0;
    proof {
        assert(all.take(0) =~= Seq::<Seq<Part>>::empty());
        assert(start + Seq::<Seq<char>>::empty() =~= start);
    }
    while i < files.len()
        invariant
            i <= files.len(),
            outcomes@.len() == files@.len(),
            all == crate::sort::views(files@),
            crate::sort::views(errors@) == start + file_errors(
                all.take(i as int),
                outcomes@,
                style@,
            ),
        decreases files.len() - i,
    {
        let ghost was = crate::sort::views(errors@);
        proof {
            assert(all.take(i + 1).drop_last() =~= all.take(i as int));
            assert(all.take(i + 1)[i as int] == files@[i as int]@);
        }
        match &outcomes[i] {
            FileOutcome::Skipped => {},
            FileOutcome::Removed => {},
            FileOutcome::Failed(e) => {
                errors.push(crate::reclaim::show_error(&files[i], e.as_str(), style));
                assert(crate::sort::views(errors@) =~= was.push(
                    crate::reclaim::error_text(files@[i as int]@, e@, style@),
                ));
            },
        }
        i += 1;
        assert(crate::sort::views(errors@) =~= start + file_errors(
            all.take(i as int),
            outcomes@,
            style@,
        ));
    }
    assert(all.take(i as int) =~= all);
}

/// Collects the messages of directories of one level that could not be removed.
fn collect_dir_errors(
    dirs: &Vec<FilePath>,
    outcomes: &Vec<Result<(), String>>,
    style: &PathStyle,
    errors: &mut Vec<String>,
)
    requires
        outcomes@.len() == dirs@.len(),
    ensures
        crate::sort::views(final(errors)@) == crate::sort::views(old(errors)@) + dir_errors(
            crate::sort::views(dirs@),
            outcomes@,
            style@,
        ),
{
    let ghost all = crate::sort::views(dirs@);
    let ghost start = crate::sort::views(errors@);
    let mut i: usize = 0;
    proof {
        assert(all.take(0) =~= Seq::<Seq<Part>>::empty());
        assert(start + Seq::<Seq<char>>::empty() =~= start);
    }
    while i < dirs.len()
        invariant
            i <= dirs.len(),
            outcomes@.len() == dirs@.len(),
            all == crate::sort::views(dirs@),
            crate::sort::views(errors@) == start + dir_errors(
                all.take(i as int),
                outcomes@,
                style@,
            ),
        decreases dirs.len() - i,
    {
        let ghost was = crate::sort::views(errors@);
        proof {
            assert(all.take(i + 1).drop_last() =~= all.take(i as int));
            assert(all.take(i + 1)[i as int] == dirs@[i as int]@);
        }
        match &outcomes[i] {
            Ok(_) => {},
            Err(e) => {
                errors.push(crate::reclaim::show_error(&dirs[i], e.as_str(), style));
                assert(crate::sort::views(errors@) =~= was.push(
                    crate::reclaim::error_text(dirs@[i as int]@, e@, style@),
                ));
            },
        }
        i += 1;
        assert(crate::sort::views(errors@) =~= start + dir_errors(
            all.take(i as int),
            outcomes@,
            style@,
        ));
    }
    assert(all.take(i as int) =~= all);
}

/// Remove a file or an entire directory tree — permanently, or to the OS trash: the
/// report of a removal of `root`, where `found` was found there, and `outcome` is what
/// came of following `plan`. The report tells how many files and dirs and how many bytes
/// were removed; what failed or was not tried any more does not count. In a dry run
/// nothing has been changed; the report tells what would be removed. What was moved to the
/// trash counts towards `progress`; what was deleted has been counted before.
pub fn remove_path(
    root: &FilePath,
    found: &Removal,
    plan: &RemovePlan,
    outcome: &RemoveOutcome,
    progress: &mut Progress,
    style: &PathStyle,
) -> (r: RemoveReport)
    requires
        fits(*plan, found@, *outcome),
    ensures
        r.root@ == root@,
        r.files == files_removed(found@, *outcome),
        r.dirs == capped(dirs_removed(found@, *outcome)),
        r.bytes == capped(bytes_freed(found@, *outcome)),
        crate::sort::views(r.errors@) == removal_errors(root@, found@, *plan, *outcome, style@),
        r.dry_run == (plan is Nothing),
        final(progress)@ == (match *outcome {
            RemoveOutcome::Trashed(Ok(_)) => old(progress)@.advanced(found@.files.len() as u64, 0),
            _ => old(progress)@,
        }),
{
    let mut errors: Vec<String> = Vec::new();
    assert(crate::sort::views(errors@) =~= Seq::<Seq<char>>::empty());
    let dry_run: bool = match plan {
        RemovePlan::Nothing => true,
        _ => false,
    };
    let mut files_gone: u64 = 0;
    let mut dirs_gone: u64 = 0;
    let mut bytes: u64 = 0;
    match outcome {
        RemoveOutcome::Nothing => {
            files_gone = found.files.len() as u64;
            dirs_gone = found.dirs.len() as u64;
            bytes = sum_lens(&found.lens);
        },
        RemoveOutcome::Trashed(result) => match result {
            Ok(_) => {
                files_gone = found.files.len() as u64;
                dirs_gone = found.dirs.len() as u64;
                bytes = sum_lens(&found.lens);
                progress.advance(found.files.len() as u64, 0);
            },
            Err(e) => {
                errors.push(crate::reclaim::show_error(root, e.as_str(), style));
                assert(crate::sort::views(errors@) =~= seq![
                    crate::reclaim::error_text(root@, e@, style@),
                ]);
            },
        },
        RemoveOutcome::Deleted { files, levels: results } => {
            collect_file_errors(&found.files, files, style, &mut errors);
            let (unlinked_files, unlinked_bytes) = count_unlinked(&found.lens, files);
            files_gone = unlinked_files;
            bytes = unlinked_bytes;
            dirs_gone = count_dirs(results);
            match plan {
                RemovePlan::Delete { levels } => {
                    let ghost all = crate::sort::group_views(levels@);
                    let ghost start = file_errors(found@.files, files@, style@);
                    let mut g: usize = 0;
                    proof {
                        assert(all.take(0) =~= Seq::<Seq<Seq<Part>>>::empty());
                        assert(crate::sort::views(errors@) =~= start);
                        assert(start + Seq::<Seq<char>>::empty() =~= start);
                    }
                    while g < levels.len()
                        invariant
                            g <= levels.len(),
                            all == crate::sort::group_views(levels@),
                            results@.len() == levels@.len(),
                            forall|k: int|
                                0 <= k < levels@.len() ==> (#[trigger] results@[k])@.len()
                                    == levels@[k]@.len(),
                            crate::sort::views(errors@) == start + level_errors(
                                all.take(g as int),
                                results@,
                                style@,
                            ),
                        decreases levels.len() - g,
                    {
                        proof {
                            assert(all.take(g + 1).drop_last() =~= all.take(g as int));
                            assert(all.take(g + 1)[g as int] == crate::sort::views(
                                levels@[g as int]@,
                            ));
                            assert(results@[g as int]@.len() == levels@[g as int]@.len());
                        }
                        collect_dir_errors(&levels[g], &results[g], style, &mut errors);
                        g += 1;
                        assert(crate::sort::views(errors@) =~= start + level_errors(
                            all.take(g as int),
                            results@,
                            style@,
                        ));
                    }
                    assert(all.take(g as int) =~= all);
                },
                _ => {},
            }
        },
    }
    RemoveReport {
        root: root.clone(),
        files: files_gone,
        dirs: dirs_gone,
        bytes,
        errors,
        dry_run,
    }
}

/// A directory is removed only after everything that lies below it: its level comes
/// after theirs.
pub proof fn law_deepest_directories_go_first(
    dirs: Seq<Seq<Part>>,
    levels: Seq<Seq<Seq<Part>>>,
    g: int,
    h: int,
    i: int,
    j: int,
)
    requires
        crate::sort::is_grouping(dirs, levels, deeper()),
        0 <= g < levels.len(),
        0 <= h < levels.len(),
        0 <= i < levels[g].len(),
        0 <= j < levels[h].len(),
        levels[h][j].is_prefix_of(levels[g][i]),
        levels[h][j] != levels[g][i],
    ensures
        g < h,
{
    let low = levels[g][i];
    let high = levels[h][j];
    lemma_level_depth(dirs, levels, g, i);
    lemma_level_depth(dirs, levels, h, j);
    if low.len() == high.len() {
        assert(high =~= low);
    }
    if h < g {
        assert(deeper()(levels[h][0], levels[g][0]));
    }
}

/// All directories of a level are equally deep.
proof fn lemma_level_depth(
    dirs: Seq<Seq<Part>>,
    levels: Seq<Seq<Seq<Part>>>,
    g: int,
    i: int,
)
    requires
        crate::sort::is_grouping(dirs, levels, deeper()),
        0 <= g < levels.len(),
        0 <= i < levels[g].len(),
    ensures
        levels[g][i].len() == levels[g][0].len(),
        dirs.contains(levels[g][i]),
{
    let x = levels[g][0];
    let t = crate::sort::tied(deeper(), x);
    assert(levels[g] == dirs.filter(t));
    let k = crate::sort::lemma_kept_from(dirs, t, i);
    assert(dirs[k] == levels[g][i]);
}

/// Within a level no directory lies in another, so that its directories can be removed
/// in any order.
pub proof fn law_levels_do_not_nest(
    dirs: Seq<Seq<Part>>,
    levels: Seq<Seq<Seq<Part>>>,
    g: int,
    i: int,
    j: int,
)
    requires
        crate::sort::is_grouping(dirs, levels, deeper()),
        0 <= g < levels.len(),
        0 <= i < levels[g].len(),
        0 <= j < levels[g].len(),
        levels[g][i].is_prefix_of(levels[g][j]),
    ensures
        levels[g][i] == levels[g][j],
{
    lemma_level_depth(dirs, levels, g, i);
    lemma_level_depth(dirs, levels, g, j);
    assert(levels[g][i] =~= levels[g][j]);
}

/// Every directory that was found is in one of the levels, and nothing else is.
pub proof fn law_levels_hold_every_directory(
    dirs: Seq<Seq<Part>>,
    levels: Seq<Seq<Seq<Part>>>,
    d: Seq<Part>,
)
    requires
        crate::sort::is_grouping(dirs, levels, deeper()),
    ensures
        dirs.contains(d) <==> exists|g: int|
            0 <= g < levels.len() && (#[trigger] levels[g]).contains(d),
{
    if dirs.contains(d) {
        let k = choose|k: int| 0 <= k < dirs.len() && dirs[k] == d;
        assert(crate::sort::has_group(levels, dirs[k], deeper()));
        let g = choose|g: int|
            0 <= g < levels.len() && deeper()((#[trigger] levels[g])[0], dirs[k]) && deeper()(
                dirs[k],
                levels[g][0],
            );
        let t = crate::sort::tied(deeper(), levels[g][0]);
        let i = crate::sort::lemma_kept_at(dirs, t, k);
        assert(levels[g][i] == d);
        assert(levels[g].contains(d));
    }
    if exists|g: int| 0 <= g < levels.len() && (#[trigger] levels[g]).contains(d) {
        let g = choose|g: int| 0 <= g < levels.len() && (#[trigger] levels[g]).contains(d);
        let i = choose|i: int| 0 <= i < levels[g].len() && levels[g][i] == d;
        lemma_level_depth(dirs, levels, g, i);
    }
}

/// Only what was enumerated is removed: every path to remove is the path of an entry.
pub proof fn law_only_enumerated_entries_are_removed(
    entries: Seq<RemoveEntryRec>,
    p: Seq<Part>,
)
    ensures
        RemovalRec::empty().with_all(entries).dirs.contains(p) <==> exists|i: int|
            0 <= i < entries.len() && #[trigger] entries[i] == RemoveEntryRec::Dir(p),
        RemovalRec::empty().with_all(entries).files.contains(p) <==> exists|i: int|
            0 <= i < entries.len() && #[trigger] entries[i] is Other && entries[i]->path == p,
    decreases entries.len(),
{
    let found = RemovalRec::empty().with_all(entries);
    if entries.len() > 0 {
        let rest = entries.drop_last();
        let e = entries.last();
        let before = RemovalRec::empty().with_all(rest);
        law_only_enumerated_entries_are_removed(rest, p);
        assert(entries[entries.len() - 1] == e);
        assert forall|i: int| 0 <= i < rest.len() implies #[trigger] rest[i] == entries[i] by {}
        assert forall|i: int| 0 <= i < rest.len() implies #[trigger] entries[i] == rest[i] by {}
        match e {
            RemoveEntryRec::Dir(q) => {
                lemma_push_contains(before.dirs, q, p);
            },
            RemoveEntryRec::Other { path, len } => {
                lemma_push_contains(before.files, path, p);
            },
            RemoveEntryRec::Unreadable => {},
        }
    }
}

proof fn lemma_push_contains<V>(s: Seq<V>, v: V, w: V)
    ensures
        s.push(v).contains(w) <==> s.contains(w) || w == v,
{
    let t = s.push(v);
    if t.contains(w) {
        let i = choose|i: int| 0 <= i < t.len() && t[i] == w;
        if i < s.len() {
            assert(s[i] == w);
        }
    }
    if s.contains(w) {
        let i = choose|i: int| 0 <= i < s.len() && s[i] == w;
        assert(t[i] == w);
    }
    assert(t[s.len() as int] == v);
}

/// What was counted as removed together with what failed or was not tried any more is
/// everything that was found, and a removal frees no more than a dry run announces.
pub proof fn law_a_removal_counts_what_is_gone(found: RemovalRec, outcomes: Seq<FileOutcome>)
    requires
        outcomes.len() == found.files.len(),
        found.lens.len() == found.files.len(),
    ensures
        unlinked(outcomes).len() + outcomes.filter(|o: FileOutcome| !(o is Removed)).len()
            == found.files.len(),
        unlinked_len(found.lens, outcomes) <= total_len(found.lens),
{
    lemma_unlinked(found.lens, outcomes);
}

proof fn lemma_unlinked(lens: Seq<u64>, outcomes: Seq<FileOutcome>)
    requires
        outcomes.len() == lens.len(),
    ensures
        unlinked(outcomes).len() + outcomes.filter(|o: FileOutcome| !(o is Removed)).len()
            == outcomes.len(),
        unlinked_len(lens, outcomes) <= total_len(lens),
    decreases outcomes.len(),
{
    reveal(Seq::filter);
    if outcomes.len() > 0 {
        lemma_unlinked(lens.drop_last(), outcomes.drop_last());
        lemma_unlinked_ext(lens, outcomes.drop_last());
    }
}

/// Lengths of later files do not matter.
proof fn lemma_unlinked_ext(lens: Seq<u64>, outcomes: Seq<FileOutcome>)
    requires
        outcomes.len() < lens.len(),
    ensures
        unlinked_len(lens, outcomes) == unlinked_len(lens.drop_last(), outcomes),
    decreases outcomes.len(),
{
    if outcomes.len() > 0 {
        lemma_unlinked_ext(lens, outcomes.drop_last());
    }
}

} // verus!

//! What a directory walk saw.
use vstd::prelude::*;

use crate::path::{FilePath, Part};
use crate::progress::Progress;
use crate::report::{FileEntry, FileRec};

verus! {

/// One entry that a walk came across.
#[derive(Debug)]
pub enum WalkEntry {
    /// A directory, `depth` levels below the root (the root itself is at 0).
    Dir { path: FilePath, depth: usize },
    /// A regular file with its size, or `None` if that could not be read.
    File { path: FilePath, size: Option<u64> },
    /// Anything else, such as a symbolic link that is not followed.
    Other,
    /// An entry of the directory `dir` that could not be read at all.
    Unreadable { dir: FilePath },
}

/// An entry, as a mathematical value.
#[verifier::ext_equal]
pub enum EntryRec {
    Dir { path: Seq<Part>, depth: usize },
    File { path: Seq<Part>, size: Option<u64> },
    Other,
    Unreadable { dir: Seq<Part> },
}

impl View for WalkEntry {
    type V = EntryRec;

    open spec fn view(&self) -> EntryRec {
        match self {
            WalkEntry::Dir { path, depth } => EntryRec::Dir { path: path@, depth: *depth },
            WalkEntry::File { path, size } => EntryRec::File { path: path@, size: *size },
            WalkEntry::Other => EntryRec::Other,
            WalkEntry::Unreadable { dir } => EntryRec::Unreadable { dir: dir@ },
        }
    }
}

/// What a walk collected: the files, the directories below the root, and, for each entry
/// that could not be read, the directory that it is in.
#[derive(Debug)]
pub struct Walk {
    pub files: Vec<FileEntry>,
    pub dirs: Vec<FilePath>,
    pub skipped: Vec<FilePath>,
}

/// What a walk collected, as a mathematical value.
#[verifier::ext_equal]
pub struct WalkRec {
    pub files: Seq<FileRec>,
    pub dirs: Seq<Seq<Part>>,
    pub skipped: Seq<Seq<Part>>,
}

impl View for Walk {
    type V = WalkRec;

    open spec fn view(&self) -> WalkRec {
        WalkRec {
            files: crate::sort::views(self.files@),
            dirs: crate::sort::views(self.dirs@),
            skipped: crate::sort::views(self.skipped@),
        }
    }
}

/// The directory that a path is in; a path that is in none stands for itself.
pub open spec fn home_of(p: Seq<Part>) -> Seq<Part> {
    match crate::path::parent_of(p) {
        Some(q) => q,
        None => p,
    }
}

/// The directory that an entry that could not be read is in.
pub open spec fn home_of_entry(e: EntryRec) -> Seq<Part> {
    match e {
        EntryRec::Unreadable { dir } => dir,
        EntryRec::File { path, size } => home_of(path),
        EntryRec::Dir { path, depth } => home_of(path),
        EntryRec::Other => Seq::empty(),
    }
}

impl WalkRec {
    /// Nothing seen yet.
    pub open spec fn empty() -> WalkRec {
        WalkRec { files: Seq::empty(), dirs: Seq::empty(), skipped: Seq::empty() }
    }

    /// After one more entry: files are collected with their size, directories without
    /// the root, and of what could not be read the directory that it is in.
    pub open spec fn seen(self, e: EntryRec) -> WalkRec {
        match e {
            EntryRec::Dir { path, depth } => if depth > 0 {
                WalkRec { dirs: self.dirs.push(path), ..self }
            } else {
                self
            },
            EntryRec::File { path, size } => match size {
                Some(size) => WalkRec {
                    files: self.files.push(FileRec { path, size, logical_size: size }),
                    ..self
                },
                None => WalkRec { skipped: self.skipped.push(home_of(path)), ..self },
            },
            EntryRec::Other => self,
            EntryRec::Unreadable { dir } => WalkRec { skipped: self.skipped.push(dir), ..self },
        }
    }

    /// After a list of entries.
    pub open spec fn seen_all(self, entries: Seq<EntryRec>) -> WalkRec
        decreases entries.len(),
    {
        if entries.len() == 0 {
            self
        } else {
            self.seen_all(entries.drop_last()).seen(entries.last())
        }
    }
}

/// The file entries of a list whose size could be read.
pub open spec fn readable_files(entries: Seq<EntryRec>) -> Seq<EntryRec> {
    entries.filter(|e: EntryRec| e is File && e->File_size is Some)
}

/// The directory entries of a list other than the root.
pub open spec fn sub_dirs(entries: Seq<EntryRec>) -> Seq<EntryRec> {
    entries.filter(|e: EntryRec| e is Dir && e->depth > 0)
}

/// The entries of a list that could not be read.
pub open spec fn unreadable(entries: Seq<EntryRec>) -> Seq<EntryRec> {
    entries.filter(|e: EntryRec| e is Unreadable || (e is File && e->File_size is None))
}

/// A walk collects every readable file and every directory below the root, each once
/// and in the order in which it was met, and notes of every entry that it could not read
/// the directory that it is in.
pub proof fn law_walk_is_complete(entries: Seq<EntryRec>)
    ensures
        ({
            let w = WalkRec::empty().seen_all(entries);
            let files = readable_files(entries);
            let dirs = sub_dirs(entries);
            let skipped = unreadable(entries);
            &&& w.files.len() == files.len()
            &&& forall|i: int|
                0 <= i < files.len() ==> (#[trigger] w.files[i]).path == files[i]->File_path
                    && w.files[i].size == files[i]->File_size->0
            &&& w.dirs.len() == dirs.len()
            &&& forall|i: int| 0 <= i < dirs.len() ==> #[trigger] w.dirs[i] == dirs[i]->Dir_path
            &&& w.skipped.len() == skipped.len()
            &&& forall|i: int|
                0 <= i < skipped.len() ==> #[trigger] w.skipped[i] == home_of_entry(skipped[i])
        }),
    decreases entries.len(),
{
    reveal(Seq::filter);
    if entries.len() > 0 {
        law_walk_is_complete(entries.drop_last());
    }
}

impl Walk {
    /// Nothing seen yet.
    pub fn new() -> (r: Walk)
        ensures
            r@ == WalkRec::empty(),
    {
        let r = Walk { files: Vec::new(), dirs: Vec::new(), skipped: Vec::new() };
        assert(r@ =~= WalkRec::empty());
        r
    }

    /// Takes in one entry and reports it to `progress`. Returns `false`, and takes
    /// nothing in, once cancellation has been requested: the walk is then over.
    pub fn visit(&mut self, entry: WalkEntry, progress: &mut Progress) -> (go_on: bool)
        ensures
            go_on == !old(progress)@.cancelled,
            !go_on ==> final(self)@ == old(self)@ && final(progress)@ == old(progress)@,
            go_on ==> final(self)@ == old(self)@.seen(entry@),
            go_on ==> final(progress)@ == (match entry@ {
                EntryRec::File { path, size: Some(size) } => old(progress)@.advanced(1, size),
                _ => old(progress)@,
            }),
    {
        if progress.cancelled() {
            return false;
        }
        match entry {
            WalkEntry::Dir { path, depth } => {
                if depth > 0 {
                    self.dirs.push(path);
                }
            },
            WalkEntry::File { path, size } => match size {
                Some(size) => {
                    progress.advance(1, size);
                    self.files.push(FileEntry { path, size, logical_size: size });
                },
                None => {
                    match path.parent() {
                        Some(dir) => {
                            self.skipped.push(dir);
                        },
                        None => {
                            self.skipped.push(path);
                        },
                    }
                },
            },
            WalkEntry::Other => {},
            WalkEntry::Unreadable { dir } => {
                self.skipped.push(dir);
            },
        }
        assert(self@ =~= old(self)@.seen(entry@));
        true
    }
}

/// Every file of a walk with its size.
pub fn walk_files(walked: Walk) -> (r: Vec<FileEntry>)
    ensures
        crate::sort::views(r@) == walked@.files,
{
    walked.files
}

} // verus!

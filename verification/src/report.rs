//! The records that scans produce.
use vstd::prelude::*;

use crate::path::{FilePath, Part};

verus! {

/// A file with its size, as a mathematical value.
#[verifier::ext_equal]
pub struct FileRec {
    pub path: Seq<Part>,
    pub size: u64,
    pub logical_size: u64,
}

/// A single file with its size in bytes.
#[derive(Debug)]
pub struct FileEntry {
    pub path: FilePath,
    /// Bytes the file counts for in every total.
    pub size: u64,
    /// Bytes of content.
    pub logical_size: u64,
}

impl View for FileEntry {
    type V = FileRec;

    open spec fn view(&self) -> FileRec {
        FileRec { path: self.path@, size: self.size, logical_size: self.logical_size }
    }
}

impl Clone for FileEntry {
    fn clone(&self) -> (r: Self)
        ensures
            r@ == self@,
    {
        FileEntry {
            path: self.path.clone(),
            size: self.size,
            logical_size: self.logical_size,
        }
    }
}

impl FileEntry {
    /// Whether the two entries agree in every field.
    pub fn same(&self, other: &FileEntry) -> (r: bool)
        ensures
            r == (self@ == other@),
    {
        self.size == other.size && self.logical_size == other.logical_size && self.path.same(
            &other.path,
        )
    }
}

/// A directory with its totals, as a mathematical value.
#[verifier::ext_equal]
pub struct DirRec {
    pub path: Seq<Part>,
    pub size: u64,
    pub file_count: u64,
}

/// Aggregated size of a directory.
#[derive(Debug)]
pub struct DirSize {
    pub path: FilePath,
    pub size: u64,
    pub file_count: u64,
}

impl View for DirSize {
    type V = DirRec;

    open spec fn view(&self) -> DirRec {
        DirRec { path: self.path@, size: self.size, file_count: self.file_count }
    }
}

impl Clone for DirSize {
    fn clone(&self) -> (r: Self)
        ensures
            r@ == self@,
    {
        DirSize { path: self.path.clone(), size: self.size, file_count: self.file_count }
    }
}

impl DirSize {
    /// Whether the two records agree in every field.
    pub fn same(&self, other: &DirSize) -> (r: bool)
        ensures
            r == (self@ == other@),
    {
        self.size == other.size && self.file_count == other.file_count && self.path.same(
            &other.path,
        )
    }
}

/// Summary of a scan.
#[derive(Debug)]
pub struct ScanReport {
    pub root: FilePath,
    pub total_size: u64,
    pub total_files: u64,
    pub total_dirs: u64,
    /// Entries that could not be read (permissions, races) and were skipped.
    pub skipped: u64,
    /// Real sub-folders only, largest first.
    pub children: Vec<DirSize>,
    /// Bytes of files sitting directly in the scanned root (not in any sub-folder).
    pub root_files_size: u64,
    pub root_files_count: u64,
    /// Largest individual files, largest first.
    pub top_files: Vec<FileEntry>,
    /// Total bytes of the filesystem holding the scanned root (0 if unknown).
    pub disk_total: u64,
    /// Available bytes on that filesystem for non-privileged users (0 if unknown).
    pub disk_free: u64,
    /// The walk was cancelled, so the figures cover only what was seen.
    pub cancelled: bool,
}

/// The bytes of a list of files.
pub open spec fn files_size(files: Seq<FileRec>) -> nat
    decreases files.len(),
{
    if files.len() == 0 {
        0
    } else {
        files_size(files.drop_last()) + files.last().size as nat
    }
}

/// Larger files first.
pub open spec fn larger_file() -> spec_fn(FileRec, FileRec) -> bool {
    |a: FileRec, b: FileRec| a.size >= b.size
}

/// Larger directories first.
pub open spec fn larger_dir() -> spec_fn(DirRec, DirRec) -> bool {
    |a: DirRec, b: DirRec| a.size >= b.size
}

/// Directories in path order.
pub open spec fn earlier_dir() -> spec_fn(DirRec, DirRec) -> bool {
    |a: DirRec, b: DirRec| crate::path::path_le(a.path, b.path)
}

/// The first `n` values, or all of them if there are fewer.
pub open spec fn at_most<V>(s: Seq<V>, n: nat) -> Seq<V> {
    if s.len() <= n {
        s
    } else {
        s.take(n as int)
    }
}

/// `out` is what remains of `all` after sorting it by `le` (tied values staying in
/// order) and cutting the list off after `n` values.
pub open spec fn is_top<V>(all: Seq<V>, out: Seq<V>, n: nat, le: spec_fn(V, V) -> bool) -> bool {
    exists|sorted: Seq<V>| #[trigger]
        crate::sort::is_stable_sort(all, sorted, le) && out == at_most(sorted, n)
}

/// `out` is `n` files of `all` (or all of them if there are fewer), largest first, and
/// no file left out is larger than one of them.
pub open spec fn is_largest(all: Seq<FileRec>, out: Seq<FileRec>, n: nat) -> bool {
    exists|sorted: Seq<FileRec>| #[trigger]
        crate::sort::sorted_by(sorted, larger_file()) && sorted.to_multiset() == all.to_multiset()
            && out == at_most(sorted, n)
}

/// The bytes of a list of files are those of its two parts together.
pub proof fn lemma_files_size_add(a: Seq<FileRec>, b: Seq<FileRec>)
    ensures
        files_size(a + b) == files_size(a) + files_size(b),
    decreases b.len(),
{
    if b.len() == 0 {
        assert(a + b =~= a);
    } else {
        lemma_files_size_add(a, b.drop_last());
        assert((a + b).drop_last() =~= a + b.drop_last());
        assert((a + b).last() == b.last());
    }
}

/// Leaving files out of a list does not make it larger.
pub proof fn lemma_files_size_filter(files: Seq<FileRec>, keep: spec_fn(FileRec) -> bool)
    ensures
        files_size(files.filter(keep)) <= files_size(files),
    decreases files.len(),
{
    reveal(Seq::filter);
    if files.len() > 0 {
        lemma_files_size_filter(files.drop_last(), keep);
        if keep(files.last()) {
            assert(files.filter(keep).drop_last() =~= files.drop_last().filter(keep));
        }
    }
}

/// A list of files is at least as large as any first part of it.
pub proof fn lemma_files_size_take(files: Seq<FileRec>, n: int)
    requires
        0 <= n <= files.len(),
    ensures
        files_size(files.take(n)) <= files_size(files),
{
    assert(files =~= files.take(n) + files.skip(n));
    lemma_files_size_add(files.take(n), files.skip(n));
}

/// Sorts files largest first and keeps at most `top_n`.
pub(crate) fn top_files(files: Vec<FileEntry>, top_n: usize) -> (r: Vec<FileEntry>)
    ensures
        is_top(crate::sort::views(files@), crate::sort::views(r@), top_n as nat, larger_file()),
{
    let f = |a: &FileEntry, b: &FileEntry| -> (r: bool)
        ensures
            r == larger_file()(a@, b@),
        { a.size >= b.size };
    let mut out = crate::sort::stable_sort(files, &f, Ghost(larger_file()));
    let ghost sorted = crate::sort::views(out@);
    if out.len() > top_n {
        out.truncate(top_n);
    }
    assert(crate::sort::views(out@) =~= at_most(sorted, top_n as nat));
    out
}

/// Picks the largest `top_n` files.
pub(crate) fn largest_files(files: Vec<&FileEntry>, top_n: usize) -> (r: Vec<FileEntry>)
    ensures
        is_largest(crate::sort::views(files@), crate::sort::views(r@), top_n as nat),
{
    let f = |a: &&FileEntry, b: &&FileEntry| -> (r: bool)
        ensures
            r == larger_file()(a@, b@),
        { a.size >= b.size };
    let ghost all = crate::sort::views(files@);
    let sorted = crate::sort::stable_sort(files, &f, Ghost(larger_file()));
    let mut out: Vec<FileEntry> = Vec::new();
    let mut i: usize = 0;
    while i < sorted.len() && i < top_n
        invariant
            i <= sorted.len(),
            i <= top_n,
            out.len() == i,
            forall|j: int| 0 <= j < i ==> #[trigger] out@[j]@ == sorted@[j]@,
        decreases sorted.len() - i,
    {
        out.push(sorted[i].clone());
        i += 1;
    }
    assert(crate::sort::views(out@) =~= at_most(crate::sort::views(sorted@), top_n as nat));
    out
}

/// Sorts directories largest first and keeps at most `top_n`.
pub(crate) fn top_dirs(dirs: Vec<DirSize>, top_n: usize) -> (r: Vec<DirSize>)
    ensures
        is_top(crate::sort::views(dirs@), crate::sort::views(r@), top_n as nat, larger_dir()),
{
    let f = |a: &DirSize, b: &DirSize| -> (r: bool)
        ensures
            r == larger_dir()(a@, b@),
        { a.size >= b.size };
    let mut out = crate::sort::stable_sort(dirs, &f, Ghost(larger_dir()));
    let ghost sorted = crate::sort::views(out@);
    if out.len() > top_n {
        out.truncate(top_n);
    }
    assert(crate::sort::views(out@) =~= at_most(sorted, top_n as nat));
    out
}

/// Sorts directories by path.
pub(crate) fn by_path(dirs: Vec<DirSize>) -> (r: Vec<DirSize>)
    ensures
        crate::sort::sorted_by(crate::sort::views(r@), earlier_dir()),
        crate::sort::views(r@).to_multiset() == crate::sort::views(dirs@).to_multiset(),
{
    let f = |a: &DirSize, b: &DirSize| -> (r: bool)
        ensures
            r == earlier_dir()(a@, b@),
        { a.path.precedes(&b.path) };
    proof {
        let le = earlier_dir();
        assert forall|a: DirRec, b: DirRec| #[trigger] le(a, b) || le(b, a) by {
            crate::path::lemma_path_total(a.path, b.path);
        }
        assert forall|a: DirRec, b: DirRec, c: DirRec| #[trigger] le(a, b) && #[trigger] le(b, c) implies le(a, c) by {
            crate::path::lemma_path_trans(a.path, b.path, c.path);
        }
    }
    crate::sort::stable_sort(dirs, &f, Ghost(earlier_dir()))
}

} // verus!

//! Snapshots keep a scan so that a later one can be compared against it.
//!
//! A [`Snapshot`] records every directory of a [`ScanTree`] with its totals, so that
//! [`diff`] can answer for the root or for any sub-folder which children grew,
//! shrank, appeared or vanished.
use vstd::prelude::*;

use crate::index::PathIndex;
use crate::model::TreeModel;
use crate::path::{FilePath, Part};
use crate::report::{DirRec, DirSize, FileEntry, FileRec};
use crate::tree::ScanTree;

verus! {

/// Format version of [`Snapshot`]; bumped on incompatible changes.
pub const SNAPSHOT_FORMAT: u32 = 1;

/// Why a snapshot could not be read, written or compared.
#[derive(Debug)]
pub enum SnapshotError {
    /// The file could not be read or written.
    Io(String),
    /// The file is not a snapshot.
    Json(String),
    /// The file is a snapshot of another format version.
    Format(u32),
    /// The two snapshots were taken of different directories.
    RootMismatch { old: FilePath, new: FilePath },
    /// The directory to compare at is not part of the newer snapshot.
    NotInSnapshot(FilePath),
}

/// A scan kept for later: totals of the root, every directory below it, and the
/// biggest files.
#[derive(Debug)]
pub struct Snapshot {
    pub format: u32,
    /// When the scan was taken, in seconds since the Unix epoch.
    pub taken_at: u64,
    pub root: FilePath,
    pub total_size: u64,
    pub total_files: u64,
    pub total_dirs: u64,
    /// Every directory below the root with its totals, sorted by path.
    pub dirs: Vec<DirSize>,
    /// Largest files anywhere under the root, largest first.
    pub top_files: Vec<FileEntry>,
}

/// A snapshot, as a mathematical value.
#[verifier::ext_equal]
pub struct SnapshotRec {
    pub format: u32,
    pub taken_at: u64,
    pub root: Seq<Part>,
    pub total_size: u64,
    pub total_files: u64,
    pub total_dirs: u64,
    pub dirs: Seq<DirRec>,
    pub top_files: Seq<FileRec>,
}

impl View for Snapshot {
    type V = SnapshotRec;

    open spec fn view(&self) -> SnapshotRec {
        SnapshotRec {
            format: self.format,
            taken_at: self.taken_at,
            root: self.root@,
            total_size: self.total_size,
            total_files: self.total_files,
            total_dirs: self.total_dirs,
            dirs: crate::sort::views(self.dirs@),
            top_files: crate::sort::views(self.top_files@),
        }
    }
}

/// What parsing the text of a snapshot file gave: the format version on its own,
/// and the snapshot as a whole. An error is the parser's message.
#[derive(Debug)]
pub struct ParsedSnapshot {
    pub format: Result<u32, String>,
    pub snapshot: Result<Snapshot, String>,
}

/// One sub-folder whose size changed between two snapshots.
#[derive(Debug)]
pub struct DirDelta {
    pub path: FilePath,
    pub old_size: u64,
    pub new_size: u64,
    /// `new_size - old_size`, or the nearest number that fits; positive means it grew.
    pub delta: i64,
    pub old_files: u64,
    pub new_files: u64,
}

/// A changed sub-folder, as a mathematical value.
#[verifier::ext_equal]
pub struct DeltaRec {
    pub path: Seq<Part>,
    pub old_size: u64,
    pub new_size: u64,
    pub delta: i64,
    pub old_files: u64,
    pub new_files: u64,
}

impl View for DirDelta {
    type V = DeltaRec;

    open spec fn view(&self) -> DeltaRec {
        DeltaRec {
            path: self.path@,
            old_size: self.old_size,
            new_size: self.new_size,
            delta: self.delta,
            old_files: self.old_files,
            new_files: self.new_files,
        }
    }
}

/// What changed between two snapshots of the same root, seen from one directory.
#[derive(Debug)]
pub struct DiffReport {
    /// The directory the comparison is about (the root or a sub-folder).
    pub root: FilePath,
    pub old_taken_at: u64,
    pub new_taken_at: u64,
    pub old_size: u64,
    pub new_size: u64,
    /// `new_size - old_size` of the whole directory, or the nearest number that fits.
    pub delta: i64,
    pub old_files: u64,
    pub new_files: u64,
    pub files_delta: i64,
    /// Immediate sub-folders that grew, biggest gain first.
    pub grown: Vec<DirDelta>,
    /// Immediate sub-folders that shrank, biggest loss first.
    pub shrunk: Vec<DirDelta>,
    /// Immediate sub-folders present now but not before, largest first.
    pub added: Vec<DirSize>,
    /// Immediate sub-folders present before but gone now, largest first.
    pub removed: Vec<DirSize>,
}

/// A comparison, as a mathematical value.
#[verifier::ext_equal]
pub struct DiffRec {
    pub root: Seq<Part>,
    pub old_taken_at: u64,
    pub new_taken_at: u64,
    pub old_size: u64,
    pub new_size: u64,
    pub delta: i64,
    pub old_files: u64,
    pub new_files: u64,
    pub files_delta: i64,
    pub grown: Seq<DeltaRec>,
    pub shrunk: Seq<DeltaRec>,
    pub added: Seq<DirRec>,
    pub removed: Seq<DirRec>,
}

impl View for DiffReport {
    type V = DiffRec;

    open spec fn view(&self) -> DiffRec {
        DiffRec {
            root: self.root@,
            old_taken_at: self.old_taken_at,
            new_taken_at: self.new_taken_at,
            old_size: self.old_size,
            new_size: self.new_size,
            delta: self.delta,
            old_files: self.old_files,
            new_files: self.new_files,
            files_delta: self.files_delta,
            grown: crate::sort::views(self.grown@),
            shrunk: crate::sort::views(self.shrunk@),
            added: crate::sort::views(self.added@),
            removed: crate::sort::views(self.removed@),
        }
    }
}

impl DiffRec {
    /// Nothing at all changed under the directory.
    pub open spec fn unchanged(self) -> bool {
        &&& self.delta == 0
        &&& self.files_delta == 0
        &&& self.grown.len() == 0
        &&& self.shrunk.len() == 0
        &&& self.added.len() == 0
        &&& self.removed.len() == 0
    }
}

/// `new - old`, or the nearest number that fits.
pub open spec fn difference(new: u64, old: u64) -> i64 {
    if new - old > i64::MAX {
        i64::MAX
    } else if new - old < i64::MIN {
        i64::MIN
    } else {
        (new - old) as i64
    }
}

/// The first record of directory `p`.
pub open spec fn first_rec(dirs: Seq<DirRec>, p: Seq<Part>) -> Option<DirRec>
    decreases dirs.len(),
{
    if dirs.len() == 0 {
        None
    } else if dirs[0].path == p {
        Some(dirs[0])
    } else {
        first_rec(dirs.drop_first(), p)
    }
}

/// The last record of directory `p`.
pub open spec fn last_rec(dirs: Seq<DirRec>, p: Seq<Part>) -> Option<DirRec>
    decreases dirs.len(),
{
    if dirs.len() == 0 {
        None
    } else if dirs.last().path == p {
        Some(dirs.last())
    } else {
        last_rec(dirs.drop_last(), p)
    }
}

impl SnapshotRec {
    /// The bytes and files that a snapshot has for directory `at`.
    pub open spec fn totals(self, at: Seq<Part>) -> Option<(u64, u64)> {
        if at == self.root {
            Some((self.total_size, self.total_files))
        } else {
            match first_rec(self.dirs, at) {
                Some(d) => Some((d.size, d.file_count)),
                None => None,
            }
        }
    }

    /// The record of `p` if that is an immediate sub-folder of `at`.
    pub open spec fn child(self, at: Seq<Part>, p: Seq<Part>) -> Option<DirRec> {
        if crate::path::parent_of(p) == Some(at) {
            last_rec(self.dirs, p)
        } else {
            None
        }
    }
}

/// How a sub-folder that both snapshots have changed.
pub open spec fn change(o: DirRec, n: DirRec) -> DeltaRec {
    DeltaRec {
        path: n.path,
        old_size: o.size,
        new_size: n.size,
        delta: difference(n.size, o.size),
        old_files: o.file_count,
        new_files: n.file_count,
    }
}

/// `v` says how an immediate sub-folder of `at` changed.
pub open spec fn is_change(old: SnapshotRec, new: SnapshotRec, at: Seq<Part>, v: DeltaRec) -> bool {
    &&& old.child(at, v.path) is Some
    &&& new.child(at, v.path) is Some
    &&& v == change(old.child(at, v.path)->0, new.child(at, v.path)->0)
}

/// The sub-folders that grew.
pub open spec fn grew(old: SnapshotRec, new: SnapshotRec, at: Seq<Part>) -> spec_fn(
    DeltaRec,
) -> bool {
    |v: DeltaRec| is_change(old, new, at, v) && v.new_size > v.old_size
}

/// The sub-folders that shrank.
pub open spec fn shrank(old: SnapshotRec, new: SnapshotRec, at: Seq<Part>) -> spec_fn(
    DeltaRec,
) -> bool {
    |v: DeltaRec| is_change(old, new, at, v) && v.new_size < v.old_size
}

/// The sub-folders that only `there` has.
pub open spec fn only_in(there: SnapshotRec, other: SnapshotRec, at: Seq<Part>) -> spec_fn(
    DirRec,
) -> bool {
    |v: DirRec| there.child(at, v.path) == Some(v) && other.child(at, v.path) is None
}

/// Bigger gains first, then by path.
pub open spec fn bigger_gain() -> spec_fn(DeltaRec, DeltaRec) -> bool {
    |a: DeltaRec, b: DeltaRec|
        a.new_size - a.old_size > b.new_size - b.old_size || (a.new_size - a.old_size == b.new_size
            - b.old_size && crate::path::path_le(a.path, b.path))
}

/// Bigger losses first, then by path.
pub open spec fn bigger_loss() -> spec_fn(DeltaRec, DeltaRec) -> bool {
    |a: DeltaRec, b: DeltaRec|
        a.new_size - a.old_size < b.new_size - b.old_size || (a.new_size - a.old_size == b.new_size
            - b.old_size && crate::path::path_le(a.path, b.path))
}

/// Larger folders first, then by path.
pub open spec fn bigger_folder() -> spec_fn(DirRec, DirRec) -> bool {
    |a: DirRec, b: DirRec|
        a.size > b.size || (a.size == b.size && crate::path::path_le(a.path, b.path))
}

/// `out` holds exactly the values that `holds` is true of, each once, in order.
pub open spec fn is_listing<V>(
    out: Seq<V>,
    holds: spec_fn(V) -> bool,
    le: spec_fn(V, V) -> bool,
) -> bool {
    &&& crate::sort::sorted_by(out, le)
    &&& out.no_duplicates()
    &&& forall|v: V| #[trigger] out.contains(v) <==> holds(v)
}

/// What a snapshot had for a directory, or nothing if it never saw it.
pub open spec fn or_empty(t: Option<(u64, u64)>) -> (u64, u64) {
    match t {
        Some(t) => t,
        None => (0, 0),
    }
}

/// `r` says what changed at `at` from `old` to `new`.
pub open spec fn is_diff(old: SnapshotRec, new: SnapshotRec, at: Seq<Part>, r: DiffRec) -> bool {
    &&& r.root == at
    &&& r.old_taken_at == old.taken_at
    &&& r.new_taken_at == new.taken_at
    &&& new.totals(at) == Some((r.new_size, r.new_files))
    &&& or_empty(old.totals(at)) == (r.old_size, r.old_files)
    &&& r.delta == difference(r.new_size, r.old_size)
    &&& r.files_delta == difference(r.new_files, r.old_files)
    &&& is_listing(r.grown, grew(old, new, at), bigger_gain())
    &&& is_listing(r.shrunk, shrank(old, new, at), bigger_loss())
    &&& is_listing(r.added, only_in(new, old, at), bigger_folder())
    &&& is_listing(r.removed, only_in(old, new, at), bigger_folder())
}

/// `s` is a snapshot of the tree `m` that keeps `top` of its biggest files.
pub open spec fn captures(m: TreeModel, top: nat, s: SnapshotRec) -> bool {
    &&& s.format == SNAPSHOT_FORMAT
    &&& s.root == m.root()
    &&& s.total_size == m.total_size(m.root())
    &&& s.total_files == m.total_files(m.root())
    &&& s.total_dirs == m.total_dirs(m.root())
    &&& crate::sort::sorted_by(s.dirs, crate::report::earlier_dir())
    &&& s.dirs.to_multiset() == m.dir_recs(m.dirs.drop_first()).to_multiset()
    &&& crate::report::is_largest(m.all_files(m.root()), s.top_files, top)
}

/// What is accepted of a snapshot file that was read: the snapshot, if the file is of
/// the format that this version reads and parses. A foreign format is refused first.
pub open spec fn accepted(read: Result<ParsedSnapshot, String>) -> Result<
    Snapshot,
    SnapshotError,
> {
    match read {
        Err(e) => Err(SnapshotError::Io(e)),
        Ok(parsed) => match parsed.format {
            Err(e) => Err(SnapshotError::Json(e)),
            Ok(v) => if v != SNAPSHOT_FORMAT {
                Err(SnapshotError::Format(v))
            } else {
                match parsed.snapshot {
                    Err(e) => Err(SnapshotError::Json(e)),
                    Ok(s) => Ok(s),
                }
            },
        },
    }
}

impl Snapshot {
    /// Capture `tree` as it is at `taken_at`, keeping the `top_files` biggest files.
    pub fn capture(tree: &ScanTree, top_files: usize, taken_at: u64) -> (r: Snapshot)
        requires
            tree.wf(),
        ensures
            captures(tree@, top_files as nat, r@),
            r.taken_at == taken_at,
    {
        let report = tree.root_report(top_files);
        Snapshot {
            format: SNAPSHOT_FORMAT,
            taken_at,
            root: report.root,
            total_size: report.total_size,
            total_files: report.total_files,
            total_dirs: report.total_dirs,
            dirs: tree.dir_sizes(),
            top_files: report.top_files,
        }
    }

    /// What is recorded of `tree` in the history of its root. A cancelled walk is a partial
    /// view: it is no point in that history.
    pub fn record(tree: &ScanTree, top_files: usize, taken_at: u64) -> (r: Option<Snapshot>)
        requires
            tree.wf(),
        ensures
            (match r {
                Some(s) => !tree@.cancelled && captures(tree@, top_files as nat, s@) && s.taken_at
                    == taken_at,
                None => tree@.cancelled,
            }),
    {
        if tree.cancelled() {
            None
        } else {
            Some(Snapshot::capture(tree, top_files, taken_at))
        }
    }

    /// Accepts what was read from a snapshot file: `read` is what parsing its text
    /// gave, or the message of the failure to read it. A foreign format is refused
    /// whatever else the file holds.
    pub fn load(read: Result<ParsedSnapshot, String>) -> (r: Result<Snapshot, SnapshotError>)
        ensures
            r == accepted(read),
    {
        let parsed = match read {
            Err(e) => {
                return Err(SnapshotError::Io(e));
            },
            Ok(parsed) => parsed,
        };
        match parsed.format {
            Err(e) => Err(SnapshotError::Json(e)),
            Ok(v) => {
                if v != SNAPSHOT_FORMAT {
                    return Err(SnapshotError::Format(v));
                }
                match parsed.snapshot {
                    Err(e) => Err(SnapshotError::Json(e)),
                    Ok(s) => Ok(s),
                }
            },
        }
    }

    /// A short, filesystem-safe key that identifies a scanned root, so that a store can
    /// keep one history per directory (BLAKE3 of the path, 16 hex chars).
    pub fn root_key(root: &str) -> (r: String)
        ensures
            r@ == crate::hash::hex(
                crate::hash::blake3_digest(vstd::utf8::encode_utf8(root@)),
            ).take(16),
            r@.len() == 16,
    {
        let digest = crate::hash::hash_text(root);
        crate::hash::short_key(&digest)
    }
}

impl DiffReport {
    /// Keep at most `top` entries in each list.
    pub fn truncate(&mut self, top: usize)
        ensures
            final(self)@ == (DiffRec {
                grown: crate::report::at_most(old(self)@.grown, top as nat),
                shrunk: crate::report::at_most(old(self)@.shrunk, top as nat),
                added: crate::report::at_most(old(self)@.added, top as nat),
                removed: crate::report::at_most(old(self)@.removed, top as nat),
                ..old(self)@
            }),
    {
        let ghost was = self@;
        if self.grown.len() > top {
            self.grown.truncate(top);
        }
        if self.shrunk.len() > top {
            self.shrunk.truncate(top);
        }
        if self.added.len() > top {
            self.added.truncate(top);
        }
        if self.removed.len() > top {
            self.removed.truncate(top);
        }
        assert(self@.grown =~= crate::report::at_most(was.grown, top as nat));
        assert(self@.shrunk =~= crate::report::at_most(was.shrunk, top as nat));
        assert(self@.added =~= crate::report::at_most(was.added, top as nat));
        assert(self@.removed =~= crate::report::at_most(was.removed, top as nat));
    }

    /// True if nothing at all changed under this directory.
    pub fn is_unchanged(&self) -> (r: bool)
        ensures
            r == self@.unchanged(),
    {
        self.delta == 0 && self.files_delta == 0 && self.grown.len() == 0 && self.shrunk.len() == 0
            && self.added.len() == 0 && self.removed.len() == 0
    }
}

/// `new - old`, or the nearest number that fits.
pub fn delta_of(new: u64, old: u64) -> (r: i64)
    ensures
        r == difference(new, old),
{
    let exact: i128 = new as i128 - old as i128;
    if exact > 0x7fff_ffff_ffff_ffff {
        i64::MAX
    } else if exact < -0x8000_0000_0000_0000 {
        i64::MIN
    } else {
        exact as i64
    }
}

impl DirDelta {
    /// `new_size - old_size`.
    fn gain(&self) -> (r: i128)
        ensures
            r == self.new_size - self.old_size,
    {
        self.new_size as i128 - self.old_size as i128
    }
}

/// The immediate sub-folders of one directory in a snapshot, found by path.
struct Kids<'a> {
    recs: Vec<&'a DirSize>,
    index: PathIndex,
}

/// `recs` are the sub-folders of `at` among `dirs`, each once, and `index` finds them.
spec fn are_kids(
    recs: Seq<DirRec>,
    index: Map<Seq<Part>, usize>,
    dirs: Seq<DirRec>,
    at: Seq<Part>,
) -> bool {
    &&& forall|p: Seq<Part>| #[trigger]
        index.contains_key(p) <==> crate::path::parent_of(p) == Some(at) && last_rec(dirs, p) is Some
    &&& forall|p: Seq<Part>| #[trigger]
        index.contains_key(p) ==> index[p] < recs.len() && last_rec(dirs, p) == Some(
            recs[index[p] as int],
        )
    &&& forall|i: int|
        0 <= i < recs.len() ==> index.contains_key((#[trigger] recs[i]).path)
            && index[recs[i].path] == i
}

pub(crate) proof fn lemma_last_path(dirs: Seq<DirRec>, p: Seq<Part>)
    ensures
        last_rec(dirs, p) matches Some(d) ==> d.path == p,
    decreases dirs.len(),
{
    if dirs.len() > 0 {
        lemma_last_path(dirs.drop_last(), p);
    }
}

/// The immediate sub-folders of `at` in a snapshot. Where a path is listed twice,
/// the later record counts.
fn children_of<'a>(snap: &'a Snapshot, at: &FilePath) -> (r: Kids<'a>)
    ensures
        r.index.wf(),
        are_kids(crate::sort::views(r.recs@), r.index@, snap@.dirs, at@),
{
    let mut recs: Vec<&'a DirSize> = Vec::new();
    let mut index = PathIndex::new();
    let ghost dirs = snap@.dirs;
    let mut k: usize = 0;
    assert(dirs.take(0) =~= Seq::<DirRec>::empty());
    while k < snap.dirs.len()
        invariant
            k <= snap.dirs.len(),
            dirs == crate::sort::views(snap.dirs@),
            index.wf(),
            are_kids(crate::sort::views(recs@), index@, dirs.take(k as int), at@),
        decreases snap.dirs.len() - k,
    {
        let d = &snap.dirs[k];
        let ghost seen = dirs.take(k as int);
        let ghost more = dirs.take(k + 1);
        let ghost was = crate::sort::views(recs@);
        let ghost was_index = index@;
        proof {
            assert(more.drop_last() =~= seen);
            assert(more.last() == d@);
            assert forall|p: Seq<Part>| p != d@.path implies #[trigger] last_rec(more, p)
                == last_rec(seen, p) by {}
            assert(last_rec(more, d@.path) == Some(d@));
        }
        if at.is_parent_of(&d.path) {
            match index.get(&d.path) {
                Some(id) => {
                    recs.set(id, d);
                    proof {
                        let now = crate::sort::views(recs@);
                        assert(now =~= was.update(id as int, d@));
                        lemma_last_path(seen, d@.path);
                        assert forall|p: Seq<Part>| #[trigger]
                            index@.contains_key(p) implies index@[p] < now.len() && last_rec(
                            more,
                            p,
                        ) == Some(now[index@[p] as int]) by {
                            lemma_last_path(seen, p);
                        }
                        assert forall|i: int| 0 <= i < now.len() implies index@.contains_key(
                            (#[trigger] now[i]).path,
                        ) && index@[now[i].path] == i by {
                            assert(index@.contains_key(was[i].path));
                        }
                        assert(are_kids(now, index@, more, at@));
                    }
                },
                None => {
                    let id: usize = recs.len();
                    recs.push(d);
                    index.insert(d.path.clone(), id);
                    proof {
                        let now = crate::sort::views(recs@);
                        assert(now =~= was.push(d@));
                        assert forall|p: Seq<Part>| #[trigger]
                            index@.contains_key(p) implies index@[p] < now.len() && last_rec(
                            more,
                            p,
                        ) == Some(now[index@[p] as int]) by {
                            if p != d@.path {
                                assert(was_index.contains_key(p));
                            }
                        }
                        assert forall|i: int| 0 <= i < now.len() implies index@.contains_key(
                            (#[trigger] now[i]).path,
                        ) && index@[now[i].path] == i by {
                            if i < was.len() {
                                assert(was_index.contains_key(was[i].path));
                            }
                        }
                        assert forall|p: Seq<Part>| #[trigger]
                            index@.contains_key(p) <==> crate::path::parent_of(p) == Some(at@)
                                && last_rec(more, p) is Some by {
                            assert(index@.contains_key(p) <==> was_index.contains_key(p) || p
                                == d@.path);
                        }
                        assert(are_kids(now, index@, more, at@));
                    }
                },
            }
        } else {
            proof {
                assert forall|p: Seq<Part>| #[trigger]
                    index@.contains_key(p) <==> crate::path::parent_of(p) == Some(at@) && last_rec(
                        more,
                        p,
                    ) is Some by {}
                assert(are_kids(was, index@, more, at@));
            }
        }
        k += 1;
    }
    assert(dirs.take(k as int) =~= dirs);
    Kids { recs, index }
}

/// The bytes and files that a snapshot has for directory `at`.
fn totals(snap: &Snapshot, at: &FilePath) -> (r: Option<(u64, u64)>)
    ensures
        r == snap@.totals(at@),
{
    if at.same(&snap.root) {
        return Some((snap.total_size, snap.total_files));
    }
    let ghost dirs = snap@.dirs;
    let mut k: usize = 0;
    assert(dirs.skip(0) =~= dirs);
    while k < snap.dirs.len()
        invariant
            k <= snap.dirs.len(),
            dirs == crate::sort::views(snap.dirs@),
            first_rec(dirs, at@) == first_rec(dirs.skip(k as int), at@),
            at@ != snap@.root,
            dirs == snap@.dirs,
        decreases snap.dirs.len() - k,
    {
        let d = &snap.dirs[k];
        assert(dirs.skip(k as int)[0] == d@);
        assert(dirs.skip(k as int).drop_first() =~= dirs.skip(k + 1));
        if d.path.same(at) {
            return Some((d.size, d.file_count));
        }
        k += 1;
    }
    None
}

proof fn lemma_found_sorted<V>(
    found: Seq<V>,
    out: Seq<V>,
    holds: spec_fn(V) -> bool,
    le: spec_fn(V, V) -> bool,
)
    requires
        crate::sort::is_found(found, holds),
        crate::sort::is_stable_sort(found, out, le),
    ensures
        is_listing(out, holds, le),
{
    broadcast use vstd::seq_lib::group_to_multiset_ensures;

    found.lemma_multiset_has_no_duplicates();
    assert(out.no_duplicates()) by {
        out.lemma_multiset_has_no_duplicates_conv();
    }
    assert forall|v: V| #[trigger] out.contains(v) <==> holds(v) by {
        assert(out.contains(v) <==> out.to_multiset().count(v) > 0);
        assert(found.contains(v) <==> found.to_multiset().count(v) > 0);
    }
}

/// The changes held that concern one of the first `i` sub-folders.
spec fn deltas_to(
    holds: spec_fn(DeltaRec) -> bool,
    index: Map<Seq<Part>, usize>,
    i: int,
) -> spec_fn(DeltaRec) -> bool {
    |v: DeltaRec| holds(v) && index[v.path] < i
}

/// The records held that concern one of the first `i` sub-folders.
spec fn recs_to(
    holds: spec_fn(DirRec) -> bool,
    index: Map<Seq<Part>, usize>,
    i: int,
) -> spec_fn(DirRec) -> bool {
    |v: DirRec| holds(v) && index[v.path] < i
}

/// Only one path is found at a position.
proof fn lemma_kid_at(
    recs: Seq<DirRec>,
    index: Map<Seq<Part>, usize>,
    dirs: Seq<DirRec>,
    at: Seq<Part>,
    p: Seq<Part>,
)
    requires
        are_kids(recs, index, dirs, at),
        index.contains_key(p),
    ensures
        recs[index[p] as int].path == p,
{
    lemma_last_path(dirs, p);
}

proof fn lemma_deltas_step(
    old: SnapshotRec,
    new: SnapshotRec,
    at: Seq<Part>,
    recs: Seq<DirRec>,
    index: Map<Seq<Part>, usize>,
    i: int,
    grown: Seq<DeltaRec>,
    shrunk: Seq<DeltaRec>,
)
    requires
        are_kids(recs, index, new.dirs, at),
        0 <= i < recs.len(),
        crate::sort::is_found(grown, deltas_to(grew(old, new, at), index, i)),
        crate::sort::is_found(shrunk, deltas_to(shrank(old, new, at), index, i)),
    ensures
        ({
            let n = recs[i];
            let o = old.child(at, n.path);
            let v = change(o->0, n);
            &&& crate::sort::is_found(
                if o is Some && v.delta > 0 {
                    grown.push(v)
                } else {
                    grown
                },
                deltas_to(grew(old, new, at), index, i + 1),
            )
            &&& crate::sort::is_found(
                if o is Some && v.delta < 0 {
                    shrunk.push(v)
                } else {
                    shrunk
                },
                deltas_to(shrank(old, new, at), index, i + 1),
            )
        }),
{
    let n = recs[i];
    let o = old.child(at, n.path);
    let v = change(o->0, n);
    assert(index.contains_key(n.path));
    lemma_last_path(old.dirs, n.path);
    let g0 = deltas_to(grew(old, new, at), index, i);
    let g1 = deltas_to(grew(old, new, at), index, i + 1);
    assert forall|w: DeltaRec| #[trigger] g1(w) <==> g0(w) || (w == v && o is Some && v.delta
        > 0) by {
        if g1(w) {
            assert(index.contains_key(w.path));
            lemma_kid_at(recs, index, new.dirs, at, w.path);
        }
    }
    if o is Some && v.delta > 0 {
        assert(!g0(v));
        crate::sort::lemma_found_push(grown, v, g0, g1);
    } else {
        crate::sort::lemma_found_same(grown, g0, g1);
    }
    let s0 = deltas_to(shrank(old, new, at), index, i);
    let s1 = deltas_to(shrank(old, new, at), index, i + 1);
    assert forall|w: DeltaRec| #[trigger] s1(w) <==> s0(w) || (w == v && o is Some && v.delta
        < 0) by {
        if s1(w) {
            assert(index.contains_key(w.path));
            lemma_kid_at(recs, index, new.dirs, at, w.path);
        }
    }
    if o is Some && v.delta < 0 {
        assert(!s0(v));
        crate::sort::lemma_found_push(shrunk, v, s0, s1);
    } else {
        crate::sort::lemma_found_same(shrunk, s0, s1);
    }
}

proof fn lemma_only_step(
    there: SnapshotRec,
    other: SnapshotRec,
    at: Seq<Part>,
    recs: Seq<DirRec>,
    index: Map<Seq<Part>, usize>,
    i: int,
    out: Seq<DirRec>,
)
    requires
        are_kids(recs, index, there.dirs, at),
        0 <= i < recs.len(),
        crate::sort::is_found(out, recs_to(only_in(there, other, at), index, i)),
    ensures
        crate::sort::is_found(
            if other.child(at, recs[i].path) is None {
                out.push(recs[i])
            } else {
                out
            },
            recs_to(only_in(there, other, at), index, i + 1),
        ),
{
    let n = recs[i];
    assert(index.contains_key(n.path));
    let h0 = recs_to(only_in(there, other, at), index, i);
    let h1 = recs_to(only_in(there, other, at), index, i + 1);
    assert forall|w: DirRec| #[trigger] h1(w) <==> h0(w) || (w == n && other.child(
        at,
        n.path,
    ) is None) by {
        if h1(w) {
            assert(index.contains_key(w.path));
            lemma_kid_at(recs, index, there.dirs, at, w.path);
        }
    }
    if other.child(at, n.path) is None {
        assert(!h0(n));
        crate::sort::lemma_found_push(out, n, h0, h1);
    } else {
        crate::sort::lemma_found_same(out, h0, h1);
    }
}

/// At the end every sub-folder has been looked at.
proof fn lemma_all_deltas(
    old: SnapshotRec,
    new: SnapshotRec,
    at: Seq<Part>,
    recs: Seq<DirRec>,
    index: Map<Seq<Part>, usize>,
    grown: Seq<DeltaRec>,
    shrunk: Seq<DeltaRec>,
)
    requires
        are_kids(recs, index, new.dirs, at),
        crate::sort::is_found(grown, deltas_to(grew(old, new, at), index, recs.len() as int)),
        crate::sort::is_found(shrunk, deltas_to(shrank(old, new, at), index, recs.len() as int)),
    ensures
        crate::sort::is_found(grown, grew(old, new, at)),
        crate::sort::is_found(shrunk, shrank(old, new, at)),
{
    let g = grew(old, new, at);
    let g0 = deltas_to(g, index, recs.len() as int);
    assert forall|w: DeltaRec| #[trigger] g(w) <==> g0(w) by {
        if g(w) {
            assert(index.contains_key(w.path));
        }
    }
    crate::sort::lemma_found_same(grown, g0, g);
    let s = shrank(old, new, at);
    let s0 = deltas_to(s, index, recs.len() as int);
    assert forall|w: DeltaRec| #[trigger] s(w) <==> s0(w) by {
        if s(w) {
            assert(index.contains_key(w.path));
        }
    }
    crate::sort::lemma_found_same(shrunk, s0, s);
}

proof fn lemma_all_only(
    there: SnapshotRec,
    other: SnapshotRec,
    at: Seq<Part>,
    recs: Seq<DirRec>,
    index: Map<Seq<Part>, usize>,
    out: Seq<DirRec>,
)
    requires
        are_kids(recs, index, there.dirs, at),
        crate::sort::is_found(out, recs_to(only_in(there, other, at), index, recs.len() as int)),
    ensures
        crate::sort::is_found(out, only_in(there, other, at)),
{
    let h = only_in(there, other, at);
    let h0 = recs_to(h, index, recs.len() as int);
    assert forall|w: DirRec| #[trigger] h(w) <==> h0(w) by {
        if h(w) {
            assert(index.contains_key(w.path));
        }
    }
    crate::sort::lemma_found_same(out, h0, h);
}

/// What changed among the sub-folders that both snapshots have.
fn changes(
    old_kids: &Kids,
    new_kids: &Kids,
    Ghost(old): Ghost<SnapshotRec>,
    Ghost(new): Ghost<SnapshotRec>,
    Ghost(at): Ghost<Seq<Part>>,
) -> (r: (Vec<DirDelta>, Vec<DirDelta>))
    requires
        old_kids.index.wf(),
        are_kids(crate::sort::views(old_kids.recs@), old_kids.index@, old.dirs, at),
        are_kids(crate::sort::views(new_kids.recs@), new_kids.index@, new.dirs, at),
    ensures
        crate::sort::is_found(crate::sort::views(r.0@), grew(old, new, at)),
        crate::sort::is_found(crate::sort::views(r.1@), shrank(old, new, at)),
{
    let mut grown: Vec<DirDelta> = Vec::new();
    let mut shrunk: Vec<DirDelta> = Vec::new();
    let ghost recs = crate::sort::views(new_kids.recs@);
    let ghost index = new_kids.index@;
    let mut i: usize = 0;
    proof {
        crate::sort::lemma_found_none(deltas_to(grew(old, new, at), index, 0));
        crate::sort::lemma_found_none(deltas_to(shrank(old, new, at), index, 0));
        assert(crate::sort::views(grown@) =~= Seq::<DeltaRec>::empty());
        assert(crate::sort::views(shrunk@) =~= Seq::<DeltaRec>::empty());
    }
    while i < new_kids.recs.len()
        invariant
            i <= new_kids.recs.len(),
            recs == crate::sort::views(new_kids.recs@),
            index == new_kids.index@,
            old_kids.index.wf(),
            are_kids(crate::sort::views(old_kids.recs@), old_kids.index@, old.dirs, at),
            are_kids(recs, index, new.dirs, at),
            crate::sort::is_found(crate::sort::views(grown@), deltas_to(grew(old, new, at), index, i as int)),
            crate::sort::is_found(crate::sort::views(shrunk@), deltas_to(shrank(old, new, at), index, i as int)),
        decreases new_kids.recs.len() - i,
    {
        let n: &DirSize = new_kids.recs[i];
        let ghost g = crate::sort::views(grown@);
        let ghost s = crate::sort::views(shrunk@);
        proof {
            assert(recs[i as int] == n@);
            assert(index.contains_key(n@.path));
            lemma_deltas_step(old, new, at, recs, index, i as int, g, s);
        }
        match old_kids.index.get(&n.path) {
            Some(id) => {
                let o: &DirSize = old_kids.recs[id];
                assert(old.child(at, n@.path) == Some(o@));
                if n.size != o.size {
                    let entry = DirDelta {
                        path: n.path.clone(),
                        old_size: o.size,
                        new_size: n.size,
                        delta: delta_of(n.size, o.size),
                        old_files: o.file_count,
                        new_files: n.file_count,
                    };
                    assert(entry@ == change(o@, n@));
                    if n.size > o.size {
                        grown.push(entry);
                        assert(crate::sort::views(grown@) =~= g.push(change(o@, n@)));
                    } else {
                        shrunk.push(entry);
                        assert(crate::sort::views(shrunk@) =~= s.push(change(o@, n@)));
                    }
                }
            },
            None => {
                assert(old.child(at, n@.path) is None);
            },
        }
        i += 1;
    }
    proof {
        lemma_all_deltas(
            old,
            new,
            at,
            recs,
            index,
            crate::sort::views(grown@),
            crate::sort::views(shrunk@),
        );
    }
    (grown, shrunk)
}

/// The sub-folders that only one of two snapshots has.
fn missing_from(
    other_kids: &Kids,
    kids: &Kids,
    Ghost(other): Ghost<SnapshotRec>,
    Ghost(there): Ghost<SnapshotRec>,
    Ghost(at): Ghost<Seq<Part>>,
) -> (r: Vec<DirSize>)
    requires
        other_kids.index.wf(),
        are_kids(crate::sort::views(other_kids.recs@), other_kids.index@, other.dirs, at),
        are_kids(crate::sort::views(kids.recs@), kids.index@, there.dirs, at),
    ensures
        crate::sort::is_found(crate::sort::views(r@), only_in(there, other, at)),
{
    let mut out: Vec<DirSize> = Vec::new();
    let ghost recs = crate::sort::views(kids.recs@);
    let ghost index = kids.index@;
    let mut i: usize = 0;
    proof {
        crate::sort::lemma_found_none(recs_to(only_in(there, other, at), index, 0));
        assert(crate::sort::views(out@) =~= Seq::<DirRec>::empty());
    }
    while i < kids.recs.len()
        invariant
            i <= kids.recs.len(),
            recs == crate::sort::views(kids.recs@),
            index == kids.index@,
            other_kids.index.wf(),
            are_kids(crate::sort::views(other_kids.recs@), other_kids.index@, other.dirs, at),
            are_kids(recs, index, there.dirs, at),
            crate::sort::is_found(crate::sort::views(out@), recs_to(only_in(there, other, at), index, i as int)),
        decreases kids.recs.len() - i,
    {
        let n: &DirSize = kids.recs[i];
        let ghost was = crate::sort::views(out@);
        proof {
            assert(recs[i as int] == n@);
            assert(index.contains_key(n@.path));
            lemma_only_step(there, other, at, recs, index, i as int, was);
        }
        match other_kids.index.get(&n.path) {
            Some(id) => {
                assert(other.child(at, n@.path) is Some);
            },
            None => {
                assert(other.child(at, n@.path) is None);
                out.push(n.clone());
                assert(crate::sort::views(out@) =~= was.push(n@));
            },
        }
        i += 1;
    }
    proof {
        lemma_all_only(there, other, at, recs, index, crate::sort::views(out@));
    }
    out
}

/// Sorts changes by gain, then by path.
fn by_gain(v: Vec<DirDelta>, Ghost(holds): Ghost<spec_fn(DeltaRec) -> bool>) -> (r: Vec<DirDelta>)
    requires
        crate::sort::is_found(crate::sort::views(v@), holds),
    ensures
        is_listing(crate::sort::views(r@), holds, bigger_gain()),
{
    let f = |a: &DirDelta, b: &DirDelta| -> (r: bool)
        ensures
            r == bigger_gain()(a@, b@),
        { a.gain() > b.gain() || (a.gain() == b.gain() && a.path.precedes(&b.path)) };
    proof {
        let le = bigger_gain();
        assert forall|a: DeltaRec, b: DeltaRec| #[trigger] le(a, b) || le(b, a) by {
            crate::path::lemma_path_total(a.path, b.path);
        }
        assert forall|a: DeltaRec, b: DeltaRec, c: DeltaRec| #[trigger]
            le(a, b) && #[trigger] le(b, c) implies le(a, c) by {
            if crate::path::path_le(a.path, b.path) && crate::path::path_le(b.path, c.path) {
                crate::path::lemma_path_trans(a.path, b.path, c.path);
            }
        }
    }
    let ghost was = crate::sort::views(v@);
    let r = crate::sort::stable_sort(v, &f, Ghost(bigger_gain()));
    proof {
        lemma_found_sorted(was, crate::sort::views(r@), holds, bigger_gain());
    }
    r
}

/// Sorts changes by loss, then by path.
fn by_loss(v: Vec<DirDelta>, Ghost(holds): Ghost<spec_fn(DeltaRec) -> bool>) -> (r: Vec<DirDelta>)
    requires
        crate::sort::is_found(crate::sort::views(v@), holds),
    ensures
        is_listing(crate::sort::views(r@), holds, bigger_loss()),
{
    let f = |a: &DirDelta, b: &DirDelta| -> (r: bool)
        ensures
            r == bigger_loss()(a@, b@),
        { a.gain() < b.gain() || (a.gain() == b.gain() && a.path.precedes(&b.path)) };
    proof {
        let le = bigger_loss();
        assert forall|a: DeltaRec, b: DeltaRec| #[trigger] le(a, b) || le(b, a) by {
            crate::path::lemma_path_total(a.path, b.path);
        }
        assert forall|a: DeltaRec, b: DeltaRec, c: DeltaRec| #[trigger]
            le(a, b) && #[trigger] le(b, c) implies le(a, c) by {
            if crate::path::path_le(a.path, b.path) && crate::path::path_le(b.path, c.path) {
                crate::path::lemma_path_trans(a.path, b.path, c.path);
            }
        }
    }
    let ghost was = crate::sort::views(v@);
    let r = crate::sort::stable_sort(v, &f, Ghost(bigger_loss()));
    proof {
        lemma_found_sorted(was, crate::sort::views(r@), holds, bigger_loss());
    }
    r
}

/// Sorts folders by size, then by path.
fn by_folder_size(v: Vec<DirSize>, Ghost(holds): Ghost<spec_fn(DirRec) -> bool>) -> (r: Vec<
    DirSize,
>)
    requires
        crate::sort::is_found(crate::sort::views(v@), holds),
    ensures
        is_listing(crate::sort::views(r@), holds, bigger_folder()),
{
    let f = |a: &DirSize, b: &DirSize| -> (r: bool)
        ensures
            r == bigger_folder()(a@, b@),
        { a.size > b.size || (a.size == b.size && a.path.precedes(&b.path)) };
    proof {
        let le = bigger_folder();
        assert forall|a: DirRec, b: DirRec| #[trigger] le(a, b) || le(b, a) by {
            crate::path::lemma_path_total(a.path, b.path);
        }
        assert forall|a: DirRec, b: DirRec, c: DirRec| #[trigger]
            le(a, b) && #[trigger] le(b, c) implies le(a, c) by {
            if crate::path::path_le(a.path, b.path) && crate::path::path_le(b.path, c.path) {
                crate::path::lemma_path_trans(a.path, b.path, c.path);
            }
        }
    }
    let ghost was = crate::sort::views(v@);
    let r = crate::sort::stable_sort(v, &f, Ghost(bigger_folder()));
    proof {
        lemma_found_sorted(was, crate::sort::views(r@), holds, bigger_folder());
    }
    r
}

/// Compare two snapshots of the same root at directory `at` (the root or any
/// sub-folder of the newer snapshot). A folder missing from the older snapshot
/// counts as having been empty.
pub fn diff(old: &Snapshot, new: &Snapshot, at: &FilePath) -> (r: Result<
    DiffReport,
    SnapshotError,
>)
    ensures
        (match r {
            Ok(report) => old@.root == new@.root && is_diff(old@, new@, at@, report@),
            Err(SnapshotError::RootMismatch { old: o, new: n }) => old@.root != new@.root && o@
                == old@.root && n@ == new@.root,
            Err(SnapshotError::NotInSnapshot(p)) => old@.root == new@.root && new@.totals(
                at@,
            ) is None && p@ == at@,
            Err(_) => false,
        }),
{
    if !old.root.same(&new.root) {
        return Err(
            SnapshotError::RootMismatch { old: old.root.clone(), new: new.root.clone() },
        );
    }
    let (new_size, new_files) = match totals(new, at) {
        Some(t) => t,
        None => {
            return Err(SnapshotError::NotInSnapshot(at.clone()));
        },
    };
    let (old_size, old_files) = match totals(old, at) {
        Some(t) => t,
        None => (0, 0),
    };
    let old_kids = children_of(old, at);
    let new_kids = children_of(new, at);
    let (grown, shrunk) = changes(&old_kids, &new_kids, Ghost(old@), Ghost(new@), Ghost(at@));
    let added = missing_from(&old_kids, &new_kids, Ghost(old@), Ghost(new@), Ghost(at@));
    let removed = missing_from(&new_kids, &old_kids, Ghost(new@), Ghost(old@), Ghost(at@));
    Ok(
        DiffReport {
            root: at.clone(),
            old_taken_at: old.taken_at,
            new_taken_at: new.taken_at,
            old_size,
            new_size,
            delta: delta_of(new_size, old_size),
            old_files,
            new_files,
            files_delta: delta_of(new_files, old_files),
            grown: by_gain(grown, Ghost(grew(old@, new@, at@))),
            shrunk: by_loss(shrunk, Ghost(shrank(old@, new@, at@))),
            added: by_folder_size(added, Ghost(only_in(new@, old@, at@))),
            removed: by_folder_size(removed, Ghost(only_in(old@, new@, at@))),
        },
    )
}

} // verus!

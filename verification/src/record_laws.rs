//! What the mathematical values of the library's records stand for.
use vstd::prelude::*;

use crate::dupes::{DupGroup, Probe};
use crate::glob::Options;
use crate::path::PathPart;
use crate::progress::ProgressRec;
use crate::reclaim::ReclaimReport;
use crate::remove::{RemoveEntry, Removal};
use crate::report::{DirSize, FileEntry};
use crate::snapshot::{DiffReport, DirDelta, Snapshot};
use crate::trail::Sighting;
use crate::walk::{Walk, WalkEntry};

verus! {

/// A file and a folder are what their fields say.
pub proof fn law_entries_are_what_they_hold(file: FileEntry, dir: DirSize)
    ensures
        file@.path == file.path@,
        file@.size == file.size,
        file@.logical_size == file.logical_size,
        dir@.path == dir.path@,
        dir@.size == dir.size,
        dir@.file_count == dir.file_count,
{
}

/// A component of a path is of the kind and has the bytes that it was made with.
pub proof fn law_components_are_what_they_hold(part: PathPart)
    ensures
        part is Prefix <==> part@ is Prefix,
        part is RootDir <==> part@ is RootDir,
        part is CurDir <==> part@ is CurDir,
        part is ParentDir <==> part@ is ParentDir,
        part is Normal <==> part@ is Normal,
        part is Prefix ==> part@->Prefix_0 == part->Prefix_0@,
        part is Normal ==> part@->Normal_0 == part->Normal_0@,
{
}

/// A probed file and a group of duplicates are what their fields say.
pub proof fn law_duplicates_are_what_they_hold(probe: Probe, group: DupGroup)
    ensures
        probe@.path == probe.path@,
        probe@.size == probe.size,
        probe@.id == probe.id,
        probe.prefix is Some <==> probe@.prefix is Some,
        probe.prefix is Some ==> probe@.prefix->0 == probe.prefix->0@,
        probe.digest is Some <==> probe@.digest is Some,
        probe.digest is Some ==> probe@.digest->0 == probe.digest->0@,
        group@.size == group.size,
        group@.hash == group.hash@,
        group@.wasted == group.wasted,
        group@.files.len() == group.files@.len(),
        forall|i: int| 0 <= i < group.files@.len() ==> #[trigger] group@.files[i] == group.files@[i]@,
{
}

/// What a walk meets and collects is what its fields say.
pub proof fn law_walks_are_what_they_hold(entry: WalkEntry, walk: Walk)
    ensures
        entry is Dir <==> entry@ is Dir,
        entry is File <==> entry@ is File,
        entry is Other <==> entry@ is Other,
        entry is Unreadable <==> entry@ is Unreadable,
        entry is Dir ==> entry@->Dir_path == entry->Dir_path@ && entry@->depth == entry->depth,
        entry is File ==> entry@->File_path == entry->File_path@ && entry@->size == entry->size,
        entry is Unreadable ==> entry@->dir == entry->dir@,
        walk@.files.len() == walk.files@.len(),
        walk@.dirs.len() == walk.dirs@.len(),
        walk@.skipped.len() == walk.skipped@.len(),
        forall|i: int| 0 <= i < walk.files@.len() ==> #[trigger] walk@.files[i] == walk.files@[i]@,
        forall|i: int| 0 <= i < walk.dirs@.len() ==> #[trigger] walk@.dirs[i] == walk.dirs@[i]@,
        forall|i: int|
            0 <= i < walk.skipped@.len() ==> #[trigger] walk@.skipped[i] == walk.skipped@[i]@,
{
}

/// What is to be removed is what its fields say.
pub proof fn law_removals_are_what_they_hold(entry: RemoveEntry, found: Removal)
    ensures
        entry is Dir <==> entry@ is Dir,
        entry is Other <==> entry@ is Other,
        entry is Unreadable <==> entry@ is Unreadable,
        entry is Dir ==> entry@->0 == entry->0@,
        entry is Other ==> entry@->path == entry->path@ && entry@->len == entry->len,
        found@.files.len() == found.files@.len(),
        found@.lens == found.lens@,
        found@.dirs.len() == found.dirs@.len(),
        forall|i: int| 0 <= i < found.files@.len() ==> #[trigger] found@.files[i] == found.files@[i]@,
        forall|i: int| 0 <= i < found.dirs@.len() ==> #[trigger] found@.dirs[i] == found.dirs@[i]@,
{
}

/// A snapshot is what its fields say.
pub proof fn law_snapshots_are_what_they_hold(s: Snapshot)
    ensures
        s@.format == s.format,
        s@.taken_at == s.taken_at,
        s@.root == s.root@,
        s@.total_size == s.total_size,
        s@.total_files == s.total_files,
        s@.total_dirs == s.total_dirs,
        s@.dirs.len() == s.dirs@.len(),
        s@.top_files.len() == s.top_files@.len(),
        forall|i: int| 0 <= i < s.dirs@.len() ==> #[trigger] s@.dirs[i] == s.dirs@[i]@,
        forall|i: int| 0 <= i < s.top_files@.len() ==> #[trigger] s@.top_files[i] == s.top_files@[i]@,
{
}

/// A comparison is what its fields say.
pub proof fn law_comparisons_are_what_they_hold(d: DirDelta, r: DiffReport)
    ensures
        d@.path == d.path@,
        d@.old_size == d.old_size,
        d@.new_size == d.new_size,
        d@.delta == d.delta,
        d@.old_files == d.old_files,
        d@.new_files == d.new_files,
        r@.root == r.root@,
        r@.old_taken_at == r.old_taken_at,
        r@.new_taken_at == r.new_taken_at,
        r@.old_size == r.old_size,
        r@.new_size == r.new_size,
        r@.delta == r.delta,
        r@.old_files == r.old_files,
        r@.new_files == r.new_files,
        r@.files_delta == r.files_delta,
        r@.grown.len() == r.grown@.len(),
        r@.shrunk.len() == r.shrunk@.len(),
        r@.added.len() == r.added@.len(),
        r@.removed.len() == r.removed@.len(),
        forall|i: int| 0 <= i < r.grown@.len() ==> #[trigger] r@.grown[i] == r.grown@[i]@,
        forall|i: int| 0 <= i < r.shrunk@.len() ==> #[trigger] r@.shrunk[i] == r.shrunk@[i]@,
        forall|i: int| 0 <= i < r.added@.len() ==> #[trigger] r@.added[i] == r.added@[i]@,
        forall|i: int| 0 <= i < r.removed@.len() ==> #[trigger] r@.removed[i] == r.removed@[i]@,
{
}

/// Options are what their fields say.
pub proof fn law_options_are_what_they_hold(o: Options)
    ensures
        o@.max_depth == o.max_depth,
        o@.follow_symlinks == o.follow_symlinks,
        o@.exclude.len() == o.exclude@.len(),
        forall|i: int| 0 <= i < o.exclude@.len() ==> #[trigger] o@.exclude[i] == o.exclude@[i]@,
{
}

/// Progress counts what it is told of, and starts anew at zero after the largest number.
/// Counting does not cancel anything.
pub proof fn law_progress_adds_up(p: ProgressRec, files: u64, bytes: u64)
    ensures
        p.files + files <= u64::MAX ==> p.advanced(files, bytes).files == p.files + files,
        p.files + files > u64::MAX ==> p.advanced(files, bytes).files == p.files + files - u64::MAX
            - 1,
        p.bytes + bytes <= u64::MAX ==> p.advanced(files, bytes).bytes == p.bytes + bytes,
        p.bytes + bytes > u64::MAX ==> p.advanced(files, bytes).bytes == p.bytes + bytes - u64::MAX
            - 1,
        p.advanced(files, bytes).cancelled == p.cancelled,
{
}

/// What a walk hands out is what its fields say.
pub proof fn law_sightings_are_what_they_hold(seen: Sighting)
    ensures
        seen is Dir <==> seen@ is Dir,
        seen is File <==> seen@ is File,
        seen is Other <==> seen@ is Other,
        seen is Failed <==> seen@ is Failed,
        seen is Dir ==> seen@->Dir_path == seen->Dir_path@ && seen@->Dir_depth == seen->Dir_depth
            && seen@->listed == seen->listed,
        seen is File ==> seen@->File_path == seen->File_path@ && seen@->size == seen->size,
        seen is Failed ==> seen@->Failed_depth == seen->Failed_depth,
{
}

/// A report on reclaimed copies is what its fields say.
pub proof fn law_reclaims_are_what_they_hold(r: ReclaimReport)
    ensures
        r@.removed == r.removed,
        r@.reclaimed == r.reclaimed,
        r@.dry_run == r.dry_run,
        r@.errors.len() == r.errors@.len(),
        forall|i: int| 0 <= i < r.errors@.len() ==> #[trigger] r@.errors[i] == r.errors@[i]@,
{
}

} // verus!

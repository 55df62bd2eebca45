//! What comparing two snapshots shows.
use vstd::prelude::*;

use crate::model::TreeModel;
use crate::path::Part;
use crate::report::{DirRec, FileRec};
use crate::snapshot::{DeltaRec, DiffRec, ParsedSnapshot, Snapshot, SnapshotError, SnapshotRec};

verus! {

/// The later of two changes listed is never the bigger one: folders that grew are listed by
/// what they gained, folders that shrank by what they lost, and folders that are new or gone by
/// their size. Those that tie are in path order.
pub proof fn law_the_biggest_changes_come_first(
    old: SnapshotRec,
    new: SnapshotRec,
    at: Seq<Part>,
    r: DiffRec,
    i: int,
    j: int,
)
    requires
        crate::snapshot::is_diff(old, new, at, r),
        0 <= i < j,
    ensures
        j < r.grown.len() ==> {
            let first = r.grown[i].new_size - r.grown[i].old_size;
            let second = r.grown[j].new_size - r.grown[j].old_size;
            &&& first >= second > 0
            &&& first == second ==> crate::path::path_le(r.grown[i].path, r.grown[j].path)
            &&& r.grown[i].path != r.grown[j].path
        },
        j < r.shrunk.len() ==> {
            let first = r.shrunk[i].old_size - r.shrunk[i].new_size;
            let second = r.shrunk[j].old_size - r.shrunk[j].new_size;
            &&& first >= second > 0
            &&& first == second ==> crate::path::path_le(r.shrunk[i].path, r.shrunk[j].path)
            &&& r.shrunk[i].path != r.shrunk[j].path
        },
        j < r.added.len() ==> {
            &&& r.added[i].size >= r.added[j].size
            &&& r.added[i].size == r.added[j].size ==> crate::path::path_le(
                r.added[i].path,
                r.added[j].path,
            )
            &&& r.added[i].path != r.added[j].path
        },
        j < r.removed.len() ==> {
            &&& r.removed[i].size >= r.removed[j].size
            &&& r.removed[i].size == r.removed[j].size ==> crate::path::path_le(
                r.removed[i].path,
                r.removed[j].path,
            )
            &&& r.removed[i].path != r.removed[j].path
        },
{
    if j < r.grown.len() {
        assert(crate::snapshot::bigger_gain()(r.grown[i], r.grown[j]));
        assert(r.grown.contains(r.grown[i]) && r.grown.contains(r.grown[j]));
        assert(crate::snapshot::grew(old, new, at)(r.grown[i]));
        assert(crate::snapshot::grew(old, new, at)(r.grown[j]));
        assert(r.grown[i] != r.grown[j]);
    }
    if j < r.shrunk.len() {
        assert(crate::snapshot::bigger_loss()(r.shrunk[i], r.shrunk[j]));
        assert(r.shrunk.contains(r.shrunk[i]) && r.shrunk.contains(r.shrunk[j]));
        assert(crate::snapshot::shrank(old, new, at)(r.shrunk[i]));
        assert(crate::snapshot::shrank(old, new, at)(r.shrunk[j]));
        assert(r.shrunk[i] != r.shrunk[j]);
    }
    if j < r.added.len() {
        assert(crate::snapshot::bigger_folder()(r.added[i], r.added[j]));
        assert(r.added.contains(r.added[i]) && r.added.contains(r.added[j]));
        assert(crate::snapshot::only_in(new, old, at)(r.added[i]));
        assert(crate::snapshot::only_in(new, old, at)(r.added[j]));
        assert(r.added[i] != r.added[j]);
    }
    if j < r.removed.len() {
        assert(crate::snapshot::bigger_folder()(r.removed[i], r.removed[j]));
        assert(r.removed.contains(r.removed[i]) && r.removed.contains(r.removed[j]));
        assert(crate::snapshot::only_in(old, new, at)(r.removed[i]));
        assert(crate::snapshot::only_in(old, new, at)(r.removed[j]));
        assert(r.removed[i] != r.removed[j]);
    }
}

proof fn lemma_last_of(dirs: Seq<DirRec>, p: Seq<Part>, k: int)
    requires
        0 <= k < dirs.len(),
        dirs[k].path == p,
        forall|x: int| k < x < dirs.len() ==> (#[trigger] dirs[x]).path != p,
    ensures
        crate::snapshot::last_rec(dirs, p) == Some(dirs[k]),
    decreases dirs.len(),
{
    if k < dirs.len() - 1 {
        assert(dirs[dirs.len() - 1].path != p);
        let rest = dirs.drop_last();
        assert forall|x: int| k < x < rest.len() implies (#[trigger] rest[x]).path != p by {
            assert(rest[x] == dirs[x]);
        }
        lemma_last_of(rest, p, k);
    }
}

proof fn lemma_first_of(dirs: Seq<DirRec>, p: Seq<Part>, k: int)
    requires
        0 <= k < dirs.len(),
        dirs[k].path == p,
        forall|x: int| 0 <= x < k ==> (#[trigger] dirs[x]).path != p,
    ensures
        crate::snapshot::first_rec(dirs, p) == Some(dirs[k]),
    decreases dirs.len(),
{
    if k > 0 {
        assert(dirs[0].path != p);
        let rest = dirs.drop_first();
        assert forall|x: int| 0 <= x < k - 1 implies (#[trigger] rest[x]).path != p by {
            assert(rest[x] == dirs[x + 1]);
        }
        lemma_first_of(rest, p, k - 1);
    }
}

proof fn lemma_last_found(dirs: Seq<DirRec>, p: Seq<Part>)
    requires
        crate::snapshot::last_rec(dirs, p) is Some,
    ensures
        dirs.contains(crate::snapshot::last_rec(dirs, p)->0),
        crate::snapshot::last_rec(dirs, p)->0.path == p,
    decreases dirs.len(),
{
    if dirs.last().path == p {
        assert(dirs[dirs.len() - 1] == dirs.last());
    } else {
        let rest = dirs.drop_last();
        lemma_last_found(rest, p);
        let k = choose|k: int|
            0 <= k < rest.len() && rest[k] == crate::snapshot::last_rec(rest, p)->0;
        assert(dirs[k] == rest[k]);
    }
}

/// A sub-folder that both snapshots have is listed as grown if it has more bytes than before
/// and as shrunk if it has fewer, once and with the figures of the two snapshots. It is never
/// listed as new or gone. Where a snapshot has two records of it, the later one counts.
pub proof fn law_a_folder_in_both_is_compared(
    old: SnapshotRec,
    new: SnapshotRec,
    at: Seq<Part>,
    r: DiffRec,
    last: Part,
    i: int,
    k: int,
)
    requires
        crate::snapshot::is_diff(old, new, at, r),
        last is Normal || last is CurDir || last is ParentDir,
        0 <= i < old.dirs.len(),
        0 <= k < new.dirs.len(),
        old.dirs[i].path == at.push(last),
        new.dirs[k].path == at.push(last),
        forall|x: int| i < x < old.dirs.len() ==> (#[trigger] old.dirs[x]).path != at.push(last),
        forall|x: int| k < x < new.dirs.len() ==> (#[trigger] new.dirs[x]).path != at.push(last),
    ensures
        new.dirs[k].size > old.dirs[i].size <==> exists|g: int|
            0 <= g < r.grown.len() && (#[trigger] r.grown[g]).path == at.push(last),
        new.dirs[k].size < old.dirs[i].size <==> exists|g: int|
            0 <= g < r.shrunk.len() && (#[trigger] r.shrunk[g]).path == at.push(last),
        forall|g: int|
            0 <= g < r.grown.len() && (#[trigger] r.grown[g]).path == at.push(last) ==> {
                &&& r.grown[g].old_size == old.dirs[i].size
                &&& r.grown[g].new_size == new.dirs[k].size
                &&& r.grown[g].old_files == old.dirs[i].file_count
                &&& r.grown[g].new_files == new.dirs[k].file_count
            },
        forall|g: int|
            0 <= g < r.shrunk.len() && (#[trigger] r.shrunk[g]).path == at.push(last) ==> {
                &&& r.shrunk[g].old_size == old.dirs[i].size
                &&& r.shrunk[g].new_size == new.dirs[k].size
                &&& r.shrunk[g].old_files == old.dirs[i].file_count
                &&& r.shrunk[g].new_files == new.dirs[k].file_count
            },
        forall|g: int| 0 <= g < r.added.len() ==> (#[trigger] r.added[g]).path != at.push(last),
        forall|g: int| 0 <= g < r.removed.len() ==> (#[trigger] r.removed[g]).path != at.push(last),
{
    let p = at.push(last);
    crate::order_laws::law_a_path_is_in_the_folder_above(at, last);
    lemma_last_of(old.dirs, p, i);
    lemma_last_of(new.dirs, p, k);
    let v = crate::snapshot::change(old.dirs[i], new.dirs[k]);
    assert(crate::snapshot::is_change(old, new, at, v));
    assert(r.grown.contains(v) <==> crate::snapshot::grew(old, new, at)(v));
    assert(r.shrunk.contains(v) <==> crate::snapshot::shrank(old, new, at)(v));
    assert forall|g: int| 0 <= g < r.grown.len() && (#[trigger] r.grown[g]).path == p implies r.grown[g]
        == v by {
        assert(r.grown.contains(r.grown[g]));
        assert(crate::snapshot::grew(old, new, at)(r.grown[g]));
    }
    assert forall|g: int| 0 <= g < r.shrunk.len() && (#[trigger] r.shrunk[g]).path == p implies r.shrunk[g]
        == v by {
        assert(r.shrunk.contains(r.shrunk[g]));
        assert(crate::snapshot::shrank(old, new, at)(r.shrunk[g]));
    }
    if exists|g: int| 0 <= g < r.grown.len() && (#[trigger] r.grown[g]).path == p {
        let g = choose|g: int| 0 <= g < r.grown.len() && (#[trigger] r.grown[g]).path == p;
        assert(r.grown.contains(r.grown[g]));
    }
    if exists|g: int| 0 <= g < r.shrunk.len() && (#[trigger] r.shrunk[g]).path == p {
        let g = choose|g: int| 0 <= g < r.shrunk.len() && (#[trigger] r.shrunk[g]).path == p;
        assert(r.shrunk.contains(r.shrunk[g]));
    }
    assert forall|g: int| 0 <= g < r.added.len() implies (#[trigger] r.added[g]).path != p by {
        assert(r.added.contains(r.added[g]));
        assert(crate::snapshot::only_in(new, old, at)(r.added[g]));
    }
    assert forall|g: int| 0 <= g < r.removed.len() implies (#[trigger] r.removed[g]).path != p by {
        assert(r.removed.contains(r.removed[g]));
        assert(crate::snapshot::only_in(old, new, at)(r.removed[g]));
    }
}

/// A sub-folder that only the newer snapshot has is listed as new, with its record, and
/// nowhere else.
pub proof fn law_a_new_folder_is_added(
    old: SnapshotRec,
    new: SnapshotRec,
    at: Seq<Part>,
    r: DiffRec,
    last: Part,
    k: int,
)
    requires
        crate::snapshot::is_diff(old, new, at, r),
        last is Normal || last is CurDir || last is ParentDir,
        0 <= k < new.dirs.len(),
        new.dirs[k].path == at.push(last),
        forall|x: int| k < x < new.dirs.len() ==> (#[trigger] new.dirs[x]).path != at.push(last),
        forall|x: int| 0 <= x < old.dirs.len() ==> (#[trigger] old.dirs[x]).path != at.push(last),
    ensures
        r.added.contains(new.dirs[k]),
        forall|g: int| 0 <= g < r.removed.len() ==> (#[trigger] r.removed[g]).path != at.push(last),
        forall|g: int| 0 <= g < r.grown.len() ==> (#[trigger] r.grown[g]).path != at.push(last),
        forall|g: int| 0 <= g < r.shrunk.len() ==> (#[trigger] r.shrunk[g]).path != at.push(last),
{
    let p = at.push(last);
    crate::order_laws::law_a_path_is_in_the_folder_above(at, last);
    lemma_last_of(new.dirs, p, k);
    if crate::snapshot::last_rec(old.dirs, p) is Some {
        lemma_last_found(old.dirs, p);
    }
    assert(crate::snapshot::only_in(new, old, at)(new.dirs[k]));
    lemma_not_changed(old, new, at, r, p);
    assert forall|g: int| 0 <= g < r.removed.len() implies (#[trigger] r.removed[g]).path != p by {
        assert(r.removed.contains(r.removed[g]));
        assert(crate::snapshot::only_in(old, new, at)(r.removed[g]));
    }
}

/// A sub-folder that only the older snapshot has is listed as gone, with its record, and
/// nowhere else.
pub proof fn law_a_vanished_folder_is_removed(
    old: SnapshotRec,
    new: SnapshotRec,
    at: Seq<Part>,
    r: DiffRec,
    last: Part,
    i: int,
)
    requires
        crate::snapshot::is_diff(old, new, at, r),
        last is Normal || last is CurDir || last is ParentDir,
        0 <= i < old.dirs.len(),
        old.dirs[i].path == at.push(last),
        forall|x: int| i < x < old.dirs.len() ==> (#[trigger] old.dirs[x]).path != at.push(last),
        forall|x: int| 0 <= x < new.dirs.len() ==> (#[trigger] new.dirs[x]).path != at.push(last),
    ensures
        r.removed.contains(old.dirs[i]),
        forall|g: int| 0 <= g < r.added.len() ==> (#[trigger] r.added[g]).path != at.push(last),
        forall|g: int| 0 <= g < r.grown.len() ==> (#[trigger] r.grown[g]).path != at.push(last),
        forall|g: int| 0 <= g < r.shrunk.len() ==> (#[trigger] r.shrunk[g]).path != at.push(last),
{
    let p = at.push(last);
    crate::order_laws::law_a_path_is_in_the_folder_above(at, last);
    lemma_last_of(old.dirs, p, i);
    if crate::snapshot::last_rec(new.dirs, p) is Some {
        lemma_last_found(new.dirs, p);
    }
    assert(crate::snapshot::only_in(old, new, at)(old.dirs[i]));
    lemma_not_changed(old, new, at, r, p);
    assert forall|g: int| 0 <= g < r.added.len() implies (#[trigger] r.added[g]).path != p by {
        assert(r.added.contains(r.added[g]));
        assert(crate::snapshot::only_in(new, old, at)(r.added[g]));
    }
}

proof fn lemma_not_changed(
    old: SnapshotRec,
    new: SnapshotRec,
    at: Seq<Part>,
    r: DiffRec,
    p: Seq<Part>,
)
    requires
        crate::snapshot::is_diff(old, new, at, r),
        old.child(at, p) is None || new.child(at, p) is None,
    ensures
        forall|g: int| 0 <= g < r.grown.len() ==> (#[trigger] r.grown[g]).path != p,
        forall|g: int| 0 <= g < r.shrunk.len() ==> (#[trigger] r.shrunk[g]).path != p,
{
    assert forall|g: int| 0 <= g < r.grown.len() implies (#[trigger] r.grown[g]).path != p by {
        assert(r.grown.contains(r.grown[g]));
        assert(crate::snapshot::grew(old, new, at)(r.grown[g]));
    }
    assert forall|g: int| 0 <= g < r.shrunk.len() implies (#[trigger] r.shrunk[g]).path != p by {
        assert(r.shrunk.contains(r.shrunk[g]));
        assert(crate::snapshot::shrank(old, new, at)(r.shrunk[g]));
    }
}

/// Only the immediate sub-folders that a snapshot has are listed.
pub proof fn law_only_sub_folders_are_listed(
    old: SnapshotRec,
    new: SnapshotRec,
    at: Seq<Part>,
    r: DiffRec,
    g: int,
)
    requires
        crate::snapshot::is_diff(old, new, at, r),
        0 <= g,
    ensures
        g < r.grown.len() ==> {
            let p = r.grown[g].path;
            &&& p.len() == at.len() + 1 && at.is_prefix_of(p)
            &&& exists|i: int| 0 <= i < old.dirs.len() && (#[trigger] old.dirs[i]).path == p
            &&& exists|i: int| 0 <= i < new.dirs.len() && (#[trigger] new.dirs[i]).path == p
        },
        g < r.shrunk.len() ==> {
            let p = r.shrunk[g].path;
            &&& p.len() == at.len() + 1 && at.is_prefix_of(p)
            &&& exists|i: int| 0 <= i < old.dirs.len() && (#[trigger] old.dirs[i]).path == p
            &&& exists|i: int| 0 <= i < new.dirs.len() && (#[trigger] new.dirs[i]).path == p
        },
        g < r.added.len() ==> {
            let p = r.added[g].path;
            &&& p.len() == at.len() + 1 && at.is_prefix_of(p)
            &&& new.dirs.contains(r.added[g])
        },
        g < r.removed.len() ==> {
            let p = r.removed[g].path;
            &&& p.len() == at.len() + 1 && at.is_prefix_of(p)
            &&& old.dirs.contains(r.removed[g])
        },
{
    if g < r.grown.len() {
        let v = r.grown[g];
        assert(r.grown.contains(v));
        assert(crate::snapshot::grew(old, new, at)(v));
        lemma_sub_folder(old, at, v.path);
        lemma_sub_folder(new, at, v.path);
    }
    if g < r.shrunk.len() {
        let v = r.shrunk[g];
        assert(r.shrunk.contains(v));
        assert(crate::snapshot::shrank(old, new, at)(v));
        lemma_sub_folder(old, at, v.path);
        lemma_sub_folder(new, at, v.path);
    }
    if g < r.added.len() {
        let v = r.added[g];
        assert(r.added.contains(v));
        assert(crate::snapshot::only_in(new, old, at)(v));
        lemma_sub_folder(new, at, v.path);
    }
    if g < r.removed.len() {
        let v = r.removed[g];
        assert(r.removed.contains(v));
        assert(crate::snapshot::only_in(old, new, at)(v));
        lemma_sub_folder(old, at, v.path);
    }
}

proof fn lemma_sub_folder(s: SnapshotRec, at: Seq<Part>, p: Seq<Part>)
    requires
        s.child(at, p) is Some,
    ensures
        p.len() == at.len() + 1 && at.is_prefix_of(p),
        s.dirs.contains(s.child(at, p)->0),
        exists|i: int| 0 <= i < s.dirs.len() && (#[trigger] s.dirs[i]).path == p,
{
    lemma_last_found(s.dirs, p);
    let v = s.child(at, p)->0;
    let i = choose|i: int| 0 <= i < s.dirs.len() && s.dirs[i] == v;
    assert(s.dirs[i].path == p);
    assert(at =~= p.drop_last());
    assert(at =~= p.take(at.len() as int));
}

/// The figures of the directory that is compared: those of the snapshot for its root, and those
/// of the first record of a folder for any other.
pub proof fn law_a_snapshot_answers_for_a_folder(s: SnapshotRec, at: Seq<Part>, k: int)
    requires
        0 <= k < s.dirs.len(),
        forall|x: int| 0 <= x < k ==> (#[trigger] s.dirs[x]).path != at,
    ensures
        at == s.root ==> s.totals(at) == Some((s.total_size, s.total_files)),
        at != s.root && s.dirs[k].path == at ==> s.totals(at) == Some(
            (s.dirs[k].size, s.dirs[k].file_count),
        ),
        at != s.root && s.dirs[k].path != at && k == s.dirs.len() - 1 ==> s.totals(at) is None,
{
    if s.dirs[k].path == at {
        lemma_first_of(s.dirs, at, k);
    } else if k == s.dirs.len() - 1 {
        crate::history::lemma_not_in(s.dirs, at);
    }
}

/// The figures of a comparison are those that the snapshots have for the directory, nothing for
/// one that the older snapshot has not seen. The change is exact wherever it fits.
pub proof fn law_a_comparison_shows_both_sides(
    old: SnapshotRec,
    new: SnapshotRec,
    at: Seq<Part>,
    r: DiffRec,
)
    requires
        crate::snapshot::is_diff(old, new, at, r),
    ensures
        r.root == at,
        r.old_taken_at == old.taken_at,
        r.new_taken_at == new.taken_at,
        new.totals(at) == Some((r.new_size, r.new_files)),
        old.totals(at) is Some ==> old.totals(at) == Some((r.old_size, r.old_files)),
        old.totals(at) is None ==> r.old_size == 0 && r.old_files == 0,
        i64::MIN <= r.new_size - r.old_size <= i64::MAX ==> r.delta == r.new_size - r.old_size,
        r.new_size - r.old_size > i64::MAX ==> r.delta == i64::MAX,
        r.new_size - r.old_size < i64::MIN ==> r.delta == i64::MIN,
        i64::MIN <= r.new_files - r.old_files <= i64::MAX ==> r.files_delta == r.new_files
            - r.old_files,
        r.new_files - r.old_files > i64::MAX ==> r.files_delta == i64::MAX,
        r.new_files - r.old_files < i64::MIN ==> r.files_delta == i64::MIN,
        forall|g: int|
            0 <= g < r.grown.len() ==> {
                let gain = (#[trigger] r.grown[g]).new_size - r.grown[g].old_size;
                r.grown[g].delta == if gain > i64::MAX {
                    i64::MAX as int
                } else {
                    gain
                }
            },
        forall|g: int|
            0 <= g < r.shrunk.len() ==> {
                let gain = (#[trigger] r.shrunk[g]).new_size - r.shrunk[g].old_size;
                r.shrunk[g].delta == if gain < i64::MIN {
                    i64::MIN as int
                } else {
                    gain
                }
            },
{
    assert forall|g: int| 0 <= g < r.grown.len() implies {
        let gain = (#[trigger] r.grown[g]).new_size - r.grown[g].old_size;
        r.grown[g].delta == if gain > i64::MAX {
            i64::MAX as int
        } else {
            gain
        }
    } by {
        assert(r.grown.contains(r.grown[g]));
        assert(crate::snapshot::grew(old, new, at)(r.grown[g]));
    }
    assert forall|g: int| 0 <= g < r.shrunk.len() implies {
        let gain = (#[trigger] r.shrunk[g]).new_size - r.shrunk[g].old_size;
        r.shrunk[g].delta == if gain < i64::MIN {
            i64::MIN as int
        } else {
            gain
        }
    } by {
        assert(r.shrunk.contains(r.shrunk[g]));
        assert(crate::snapshot::shrank(old, new, at)(r.shrunk[g]));
    }
}

/// A comparison says that nothing changed exactly if the bytes and the number of files are the
/// same and no sub-folder is listed.
pub proof fn law_unchanged_means_nothing_to_list(
    old: SnapshotRec,
    new: SnapshotRec,
    at: Seq<Part>,
    r: DiffRec,
)
    requires
        crate::snapshot::is_diff(old, new, at, r),
    ensures
        r.unchanged() <==> {
            &&& r.old_size == r.new_size
            &&& r.old_files == r.new_files
            &&& r.grown == Seq::<DeltaRec>::empty()
            &&& r.shrunk == Seq::<DeltaRec>::empty()
            &&& r.added == Seq::<DirRec>::empty()
            &&& r.removed == Seq::<DirRec>::empty()
        },
{
    assert(r.grown.len() == 0 ==> r.grown =~= Seq::<DeltaRec>::empty());
    assert(r.shrunk.len() == 0 ==> r.shrunk =~= Seq::<DeltaRec>::empty());
    assert(r.added.len() == 0 ==> r.added =~= Seq::<DirRec>::empty());
    assert(r.removed.len() == 0 ==> r.removed =~= Seq::<DirRec>::empty());
}

/// A snapshot file is read back exactly if it could be read, is of format 1 and parses.
/// What is wrong with it otherwise is reported in that order.
pub proof fn law_snapshot_files_are_told_apart(read: Result<ParsedSnapshot, String>)
    ensures
        ({
            let got = crate::snapshot::accepted(read);
            &&& read is Err ==> got == Err::<Snapshot, SnapshotError>(
                SnapshotError::Io(read->Err_0),
            )
            &&& read is Ok ==> {
                let file = read->Ok_0;
                &&& file.format is Err ==> got == Err::<Snapshot, SnapshotError>(
                    SnapshotError::Json(file.format->Err_0),
                )
                &&& file.format is Ok && file.format->Ok_0 != 1 ==> got == Err::<
                    Snapshot,
                    SnapshotError,
                >(SnapshotError::Format(file.format->Ok_0))
                &&& file.format == Ok::<u32, String>(1) && file.snapshot is Err ==> got == Err::<
                    Snapshot,
                    SnapshotError,
                >(SnapshotError::Json(file.snapshot->Err_0))
                &&& file.format == Ok::<u32, String>(1) && file.snapshot is Ok ==> got == Ok::<
                    Snapshot,
                    SnapshotError,
                >(file.snapshot->Ok_0)
            }
        }),
{
}

/// A snapshot has the figures of the tree's root, every folder below it once, in path order and
/// with the figures of that folder, and the biggest files, largest first.
pub proof fn law_a_snapshot_keeps_what_the_tree_shows(
    m: TreeModel,
    top: nat,
    s: SnapshotRec,
    d: Seq<Part>,
    v: FileRec,
)
    requires
        m.wf(),
        crate::snapshot::captures(m, top, s),
        m.has_dir(d),
        m.all_files(m.root()).contains(v),
    ensures
        s.format == 1,
        s.root == m.dirs[0].path,
        s.total_size == m.total_size(m.root()),
        s.total_files == m.total_files(m.root()),
        s.total_dirs == m.total_dirs(m.root()),
        d != m.root() ==> exists|i: int|
            0 <= i < s.dirs.len() && (#[trigger] s.dirs[i]).path == d && s.dirs[i].size
                == m.total_size(d) as u64 && s.dirs[i].file_count == m.total_files(d) as u64,
        s.dirs.len() == m.dirs.len() - 1,
        forall|i: int, j: int|
            0 <= i < j < s.dirs.len() ==> crate::path::path_le(
                (#[trigger] s.dirs[i]).path,
                (#[trigger] s.dirs[j]).path,
            ),
        s.top_files.len() <= top,
        forall|i: int, j: int|
            0 <= i < j < s.top_files.len() ==> (#[trigger] s.top_files[i]).size >= (
            #[trigger] s.top_files[j]).size,
        forall|i: int|
            0 <= i < s.top_files.len() ==> m.all_files(m.root()).contains(#[trigger] s.top_files[i]),
        s.top_files.contains(v) || (s.top_files.len() == top && forall|i: int|
            0 <= i < s.top_files.len() ==> (#[trigger] s.top_files[i]).size >= v.size),
{
    broadcast use vstd::seq_lib::group_to_multiset_ensures;

    let recs = m.dir_recs(m.dirs.drop_first());
    assert(s.dirs.len() == s.dirs.to_multiset().len());
    assert(recs.len() == recs.to_multiset().len());
    assert forall|i: int, j: int| 0 <= i < j < s.dirs.len() implies crate::path::path_le(
        (#[trigger] s.dirs[i]).path,
        (#[trigger] s.dirs[j]).path,
    ) by {
        assert(crate::report::earlier_dir()(s.dirs[i], s.dirs[j]));
    }
    if d != m.root() {
        let k = choose|k: int| 0 <= k < m.dirs.len() && (#[trigger] m.dirs[k]).path == d;
        assert(m.dirs.drop_first()[k - 1] == m.dirs[k]);
        assert(recs[k - 1] == m.dir_rec(d));
        assert(recs.contains(m.dir_rec(d)));
        assert(recs.to_multiset().count(m.dir_rec(d)) > 0);
        assert(s.dirs.contains(m.dir_rec(d)));
        let i = choose|i: int| 0 <= i < s.dirs.len() && s.dirs[i] == m.dir_rec(d);
        assert(s.dirs[i].path == d);
    }
    let le = crate::report::larger_file();
    let all = m.all_files(m.root());
    let sorted = choose|sorted: Seq<FileRec>| #[trigger]
        crate::sort::sorted_by(sorted, le) && sorted.to_multiset() == all.to_multiset()
            && s.top_files == crate::report::at_most(sorted, top);
    crate::order_laws::lemma_cut_off(all, sorted, s.top_files, top, le);
    assert forall|i: int, j: int| 0 <= i < j < s.top_files.len() implies (
    #[trigger] s.top_files[i]).size >= (#[trigger] s.top_files[j]).size by {
        assert(le(s.top_files[i], s.top_files[j]));
    }
    assert forall|i: int| 0 <= i < s.top_files.len() implies all.contains(
        #[trigger] s.top_files[i],
    ) by {
        assert(s.top_files.contains(s.top_files[i]));
    }
    if !s.top_files.contains(v) {
        assert forall|i: int| 0 <= i < s.top_files.len() implies (#[trigger] s.top_files[i]).size
            >= v.size by {
            assert(le(s.top_files[i], v));
        }
        if s.top_files.len() < top {
            assert(sorted.to_multiset().count(v) > 0);
            assert(sorted.contains(v));
        }
    }
}

} // verus!

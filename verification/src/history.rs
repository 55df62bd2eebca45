//! What snapshots and their comparison promise as a whole.
use vstd::prelude::*;

use crate::model::TreeModel;
use crate::path::Part;
use crate::report::DirRec;
use crate::snapshot::{
    DeltaRec, DiffRec, ParsedSnapshot, Snapshot, SnapshotError, SnapshotRec,
};

verus! {

/// A snapshot that was captured, and comes back from its file unchanged, is loaded as it
/// was.
pub proof fn law_captured_snapshots_load(m: TreeModel, top: nat, s: Snapshot)
    requires
        crate::snapshot::captures(m, top, s@),
    ensures
        crate::snapshot::accepted(
            Ok(ParsedSnapshot { format: Ok(s.format), snapshot: Ok(s) }),
        ) == Ok::<Snapshot, SnapshotError>(s),
{
}

/// Comparing a snapshot with itself shows no change, at any of its directories.
pub proof fn law_same_snapshot_is_unchanged(s: SnapshotRec, at: Seq<Part>, r: DiffRec)
    requires
        crate::snapshot::is_diff(s, s, at, r),
    ensures
        r.unchanged(),
{
    if r.grown.len() > 0 {
        assert(r.grown.contains(r.grown[0]));
        assert(crate::snapshot::grew(s, s, at)(r.grown[0]));
    }
    if r.shrunk.len() > 0 {
        assert(r.shrunk.contains(r.shrunk[0]));
        assert(crate::snapshot::shrank(s, s, at)(r.shrunk[0]));
    }
    if r.added.len() > 0 {
        assert(r.added.contains(r.added[0]));
        assert(crate::snapshot::only_in(s, s, at)(r.added[0]));
    }
    if r.removed.len() > 0 {
        assert(r.removed.contains(r.removed[0]));
        assert(crate::snapshot::only_in(s, s, at)(r.removed[0]));
    }
}

/// `d` is the difference of two numbers, unless that does not fit; it is positive,
/// negative or zero as the difference is, either way.
pub open spec fn is_difference(d: i64, new: u64, old: u64) -> bool {
    &&& i64::MIN <= new - old <= i64::MAX ==> d == new - old
    &&& d > 0 <==> new > old
    &&& d < 0 <==> new < old
}

/// Every change reported is the difference of the two sizes, and likewise for the
/// number of files; what grew is larger than it was, and what shrank is smaller.
pub proof fn law_delta_is_the_difference(
    old: SnapshotRec,
    new: SnapshotRec,
    at: Seq<Part>,
    r: DiffRec,
)
    requires
        crate::snapshot::is_diff(old, new, at, r),
    ensures
        is_difference(r.delta, r.new_size, r.old_size),
        is_difference(r.files_delta, r.new_files, r.old_files),
        forall|i: int|
            0 <= i < r.grown.len() ==> {
                &&& (#[trigger] r.grown[i]).old_size < r.grown[i].new_size
                &&& is_difference(r.grown[i].delta, r.grown[i].new_size, r.grown[i].old_size)
            },
        forall|i: int|
            0 <= i < r.shrunk.len() ==> {
                &&& (#[trigger] r.shrunk[i]).new_size < r.shrunk[i].old_size
                &&& is_difference(r.shrunk[i].delta, r.shrunk[i].new_size, r.shrunk[i].old_size)
            },
{
    assert forall|i: int| 0 <= i < r.grown.len() implies {
        &&& (#[trigger] r.grown[i]).old_size < r.grown[i].new_size
        &&& is_difference(r.grown[i].delta, r.grown[i].new_size, r.grown[i].old_size)
    } by {
        assert(r.grown.contains(r.grown[i]));
        assert(crate::snapshot::grew(old, new, at)(r.grown[i]));
    }
    assert forall|i: int| 0 <= i < r.shrunk.len() implies {
        &&& (#[trigger] r.shrunk[i]).new_size < r.shrunk[i].old_size
        &&& is_difference(r.shrunk[i].delta, r.shrunk[i].new_size, r.shrunk[i].old_size)
    } by {
        assert(r.shrunk.contains(r.shrunk[i]));
        assert(crate::snapshot::shrank(old, new, at)(r.shrunk[i]));
    }
}

/// No sub-folder is reported twice: each is in at most one of the four lists.
pub proof fn law_diff_lists_are_disjoint(
    old: SnapshotRec,
    new: SnapshotRec,
    at: Seq<Part>,
    r: DiffRec,
)
    requires
        crate::snapshot::is_diff(old, new, at, r),
    ensures
        forall|a: DeltaRec, b: DeltaRec|
            r.grown.contains(a) && r.shrunk.contains(b) ==> a.path != b.path,
        forall|a: DeltaRec, b: DirRec|
            (r.grown.contains(a) || r.shrunk.contains(a)) && (r.added.contains(b)
                || r.removed.contains(b)) ==> a.path != b.path,
        forall|a: DirRec, b: DirRec|
            r.added.contains(a) && r.removed.contains(b) ==> a.path != b.path,
{
    assert forall|a: DeltaRec, b: DeltaRec|
        r.grown.contains(a) && r.shrunk.contains(b) implies a.path != b.path by {
        assert(crate::snapshot::grew(old, new, at)(a));
        assert(crate::snapshot::shrank(old, new, at)(b));
    }
    assert forall|a: DeltaRec, b: DirRec|
        (r.grown.contains(a) || r.shrunk.contains(a)) && (r.added.contains(b)
            || r.removed.contains(b)) implies a.path != b.path by {
        assert(crate::snapshot::grew(old, new, at)(a) || crate::snapshot::shrank(old, new, at)(a));
        if r.added.contains(b) {
            assert(crate::snapshot::only_in(new, old, at)(b));
        }
        if r.removed.contains(b) {
            assert(crate::snapshot::only_in(old, new, at)(b));
        }
    }
    assert forall|a: DirRec, b: DirRec|
        r.added.contains(a) && r.removed.contains(b) implies a.path != b.path by {
        assert(crate::snapshot::only_in(new, old, at)(a));
        assert(crate::snapshot::only_in(old, new, at)(b));
    }
}

/// A change, seen the other way round.
pub open spec fn reversed(v: DeltaRec) -> DeltaRec {
    DeltaRec {
        path: v.path,
        old_size: v.new_size,
        new_size: v.old_size,
        delta: crate::snapshot::difference(v.old_size, v.new_size),
        old_files: v.new_files,
        new_files: v.old_files,
    }
}

/// The change of a record is that of its sizes.
spec fn proper(v: DeltaRec) -> bool {
    v.delta == crate::snapshot::difference(v.new_size, v.old_size)
}

/// A list of changes, each seen the other way round.
pub open spec fn all_reversed(s: Seq<DeltaRec>) -> Seq<DeltaRec> {
    Seq::new(s.len(), |i: int| reversed(s[i]))
}

/// Sorted lists of the same values, none of them tied, are the same list.
proof fn lemma_listing_unique<V>(a: Seq<V>, b: Seq<V>, le: spec_fn(V, V) -> bool)
    requires
        crate::sort::sorted_by(a, le),
        crate::sort::sorted_by(b, le),
        a.no_duplicates(),
        b.no_duplicates(),
        forall|v: V| #[trigger] a.contains(v) <==> b.contains(v),
        forall|v: V, w: V|
            a.contains(v) && a.contains(w) && #[trigger] le(v, w) && #[trigger] le(w, v) ==> v
                == w,
    ensures
        a == b,
    decreases a.len(),
{
    if a.len() == 0 {
        if b.len() > 0 {
            assert(b.contains(b[0]));
            assert(a.contains(b[0]));
        }
        assert(a =~= b);
    } else {
        let x = a[0];
        assert(a.contains(x));
        assert(b.contains(x));
        let y = b[0];
        assert(b.contains(y));
        assert(a.contains(y));
        if x != y {
            let i = choose|i: int| 0 <= i < b.len() && b[i] == x;
            let j = choose|j: int| 0 <= j < a.len() && a[j] == y;
            assert(le(b[0], b[i]));
            assert(le(a[0], a[j]));
        }
        let a1 = a.drop_first();
        let b1 = b.drop_first();
        assert forall|i: int| 0 <= i < a1.len() implies #[trigger] a1[i] == a[i + 1] by {}
        assert forall|i: int| 0 <= i < b1.len() implies #[trigger] b1[i] == b[i + 1] by {}
        assert forall|v: V| #[trigger] a1.contains(v) <==> b1.contains(v) by {
            if a1.contains(v) {
                let i = choose|i: int| 0 <= i < a1.len() && a1[i] == v;
                assert(a[i + 1] == v);
                assert(a.contains(v));
                let j = choose|j: int| 0 <= j < b.len() && b[j] == v;
                assert(j > 0);
                assert(b1[j - 1] == v);
            }
            if b1.contains(v) {
                let i = choose|i: int| 0 <= i < b1.len() && b1[i] == v;
                assert(b[i + 1] == v);
                assert(b.contains(v));
                assert(a.contains(v));
                assert(b[0] != b[i + 1]);
                let j = choose|j: int| 0 <= j < a.len() && a[j] == v;
                assert(j > 0);
                assert(a1[j - 1] == v);
            }
        }
        assert forall|v: V, w: V|
            a1.contains(v) && a1.contains(w) && #[trigger] le(v, w) && #[trigger] le(
                w,
                v,
            ) implies v == w by {
            let i = choose|i: int| 0 <= i < a1.len() && a1[i] == v;
            let j = choose|j: int| 0 <= j < a1.len() && a1[j] == w;
            assert(a[i + 1] == v && a[j + 1] == w);
            assert(a.contains(v) && a.contains(w));
        }
        lemma_listing_unique(a1, b1, le);
        assert(a =~= seq![x] + a1);
        assert(b =~= seq![x] + b1);
    }
}

proof fn lemma_reversed_list(
    s: Seq<DeltaRec>,
    holds: spec_fn(DeltaRec) -> bool,
    other: spec_fn(DeltaRec) -> bool,
    le: spec_fn(DeltaRec, DeltaRec) -> bool,
    ge: spec_fn(DeltaRec, DeltaRec) -> bool,
)
    requires
        crate::snapshot::is_listing(s, holds, le),
        forall|v: DeltaRec| #[trigger] holds(v) ==> proper(v),
        forall|v: DeltaRec| #[trigger] other(v) ==> proper(v),
        forall|v: DeltaRec| proper(v) ==> #[trigger] holds(v) == other(reversed(v)),
        forall|v: DeltaRec, w: DeltaRec|
            proper(v) && proper(w) && #[trigger] le(v, w) ==> ge(
                reversed(v),
                reversed(w),
            ),
    ensures
        crate::snapshot::is_listing(all_reversed(s), other, ge),
{
    let t = all_reversed(s);
    assert forall|i: int| 0 <= i < s.len() implies holds(#[trigger] s[i]) by {
        assert(s.contains(s[i]));
    }
    assert forall|i: int, j: int| 0 <= i < j < t.len() implies ge(#[trigger] t[i], #[trigger] t[j]) by {
        assert(le(s[i], s[j]));
        assert(holds(s[i]) && holds(s[j]));
    }
    assert forall|i: int, j: int| 0 <= i < t.len() && 0 <= j < t.len() && i != j implies t[i]
        != t[j] by {
        assert(s[i] != s[j]);
        assert(holds(s[i]) && holds(s[j]));
        if t[i] == t[j] {
            assert(reversed(t[i]) =~= s[i]);
            assert(reversed(t[j]) =~= s[j]);
        }
    }
    assert forall|v: DeltaRec| #[trigger] t.contains(v) <==> other(v) by {
        if t.contains(v) {
            let i = choose|i: int| 0 <= i < t.len() && t[i] == v;
            assert(holds(s[i]));
        }
        if other(v) {
            let w = reversed(v);
            assert(reversed(w) =~= v);
            assert(holds(w));
            assert(s.contains(w));
            let i = choose|i: int| 0 <= i < s.len() && s[i] == w;
            assert(t[i] == v);
        }
    }
}

/// Comparing two snapshots the other way round turns every gain into the same loss
/// and every new folder into a vanished one.
pub proof fn law_diff_mirrors(
    old: SnapshotRec,
    new: SnapshotRec,
    at: Seq<Part>,
    there: DiffRec,
    back: DiffRec,
)
    requires
        crate::snapshot::is_diff(old, new, at, there),
        crate::snapshot::is_diff(new, old, at, back),
    ensures
        (back.new_size, back.old_size) == (there.old_size, there.new_size),
        there.delta > i64::MIN && back.delta > i64::MIN ==> back.delta == -there.delta,
        there.files_delta > i64::MIN && back.files_delta > i64::MIN ==> back.files_delta
            == -there.files_delta,
        back.shrunk == all_reversed(there.grown),
        back.grown == all_reversed(there.shrunk),
        back.added == there.removed,
        back.removed == there.added,
{
    let gain = crate::snapshot::bigger_gain();
    let loss = crate::snapshot::bigger_loss();
    let grown = crate::snapshot::grew(old, new, at);
    let shrunk = crate::snapshot::shrank(old, new, at);
    let back_grown = crate::snapshot::grew(new, old, at);
    let back_shrunk = crate::snapshot::shrank(new, old, at);
    assert forall|v: DeltaRec| proper(v) implies #[trigger] grown(v) == back_shrunk(
        reversed(v),
    ) by {
        lemma_reversed_change(old, new, at, v);
    }
    assert forall|v: DeltaRec| proper(v) implies #[trigger] shrunk(v) == back_grown(
        reversed(v),
    ) by {
        lemma_reversed_change(old, new, at, v);
    }
    assert forall|v: DeltaRec| #[trigger] shrunk(v) implies proper(v) by {}
    assert forall|v: DeltaRec| #[trigger] back_shrunk(v) implies proper(v) by {}
    lemma_reversed_list(there.grown, grown, back_shrunk, gain, loss);
    lemma_reversed_list(there.shrunk, shrunk, back_grown, loss, gain);
    lemma_changes_untied(back.shrunk, new, old, at);
    lemma_changes_untied(back.grown, new, old, at);
    assert forall|v: DeltaRec| #[trigger]
        back.shrunk.contains(v) <==> all_reversed(there.grown).contains(v) by {}
    lemma_listing_unique(back.shrunk, all_reversed(there.grown), loss);
    assert forall|v: DeltaRec| #[trigger]
        back.grown.contains(v) <==> all_reversed(there.shrunk).contains(v) by {}
    lemma_listing_unique(back.grown, all_reversed(there.shrunk), gain);
    lemma_folders_untied(back.added, old, at);
    lemma_folders_untied(back.removed, new, at);
    assert forall|v: DirRec| #[trigger] back.added.contains(v) <==> there.removed.contains(v) by {}
    lemma_listing_unique(back.added, there.removed, crate::snapshot::bigger_folder());
    assert forall|v: DirRec| #[trigger] back.removed.contains(v) <==> there.added.contains(v) by {}
    lemma_listing_unique(back.removed, there.added, crate::snapshot::bigger_folder());
}

proof fn lemma_reversed_change(old: SnapshotRec, new: SnapshotRec, at: Seq<Part>, v: DeltaRec)
    requires
        proper(v),
    ensures
        crate::snapshot::is_change(old, new, at, v) == crate::snapshot::is_change(
            new,
            old,
            at,
            reversed(v),
        ),
{
    if old.child(at, v.path) is Some && new.child(at, v.path) is Some {
        let o = old.child(at, v.path)->0;
        let n = new.child(at, v.path)->0;
        crate::snapshot::lemma_last_path(old.dirs, v.path);
        crate::snapshot::lemma_last_path(new.dirs, v.path);
        assert(reversed(crate::snapshot::change(o, n)) =~= crate::snapshot::change(n, o));
        assert(reversed(crate::snapshot::change(n, o)) =~= crate::snapshot::change(o, n));
        assert(reversed(reversed(v)) =~= v);
    }
}

proof fn lemma_changes_untied(
    s: Seq<DeltaRec>,
    old: SnapshotRec,
    new: SnapshotRec,
    at: Seq<Part>,
)
    requires
        forall|v: DeltaRec| #[trigger] s.contains(v) ==> crate::snapshot::is_change(old, new, at, v),
    ensures
        forall|v: DeltaRec, w: DeltaRec|
            s.contains(v) && s.contains(w) && #[trigger] crate::snapshot::bigger_gain()(v, w)
                && #[trigger] crate::snapshot::bigger_gain()(w, v) ==> v == w,
        forall|v: DeltaRec, w: DeltaRec|
            s.contains(v) && s.contains(w) && #[trigger] crate::snapshot::bigger_loss()(v, w)
                && #[trigger] crate::snapshot::bigger_loss()(w, v) ==> v == w,
{
    assert forall|v: DeltaRec, w: DeltaRec|
        s.contains(v) && s.contains(w) && #[trigger] crate::snapshot::bigger_gain()(v, w)
            && #[trigger] crate::snapshot::bigger_gain()(w, v) implies v == w by {
        crate::path::lemma_path_antisym(v.path, w.path);
    }
    assert forall|v: DeltaRec, w: DeltaRec|
        s.contains(v) && s.contains(w) && #[trigger] crate::snapshot::bigger_loss()(v, w)
            && #[trigger] crate::snapshot::bigger_loss()(w, v) implies v == w by {
        crate::path::lemma_path_antisym(v.path, w.path);
    }
}

proof fn lemma_folders_untied(s: Seq<DirRec>, there: SnapshotRec, at: Seq<Part>)
    requires
        forall|v: DirRec| #[trigger] s.contains(v) ==> there.child(at, v.path) == Some(v),
    ensures
        forall|v: DirRec, w: DirRec|
            s.contains(v) && s.contains(w) && #[trigger] crate::snapshot::bigger_folder()(v, w)
                && #[trigger] crate::snapshot::bigger_folder()(w, v) ==> v == w,
{
    assert forall|v: DirRec, w: DirRec|
        s.contains(v) && s.contains(w) && #[trigger] crate::snapshot::bigger_folder()(v, w)
            && #[trigger] crate::snapshot::bigger_folder()(w, v) implies v == w by {
        crate::path::lemma_path_antisym(v.path, w.path);
    }
}

proof fn lemma_first_in(dirs: Seq<DirRec>, p: Seq<Part>, k: int)
    requires
        0 <= k < dirs.len(),
        dirs[k].path == p,
        forall|i: int| 0 <= i < dirs.len() && (#[trigger] dirs[i]).path == p ==> i == k,
    ensures
        crate::snapshot::first_rec(dirs, p) == Some(dirs[k]),
    decreases dirs.len(),
{
    if k > 0 {
        assert(dirs[0].path != p);
        let rest = dirs.drop_first();
        assert forall|i: int| 0 <= i < rest.len() && (#[trigger] rest[i]).path == p implies i == k
            - 1 by {
            assert(rest[i] == dirs[i + 1]);
        }
        assert(rest[k - 1] == dirs[k]);
        lemma_first_in(rest, p, k - 1);
    }
}

proof fn lemma_last_in(dirs: Seq<DirRec>, p: Seq<Part>, k: int)
    requires
        0 <= k < dirs.len(),
        dirs[k].path == p,
        forall|i: int| 0 <= i < dirs.len() && (#[trigger] dirs[i]).path == p ==> i == k,
    ensures
        crate::snapshot::last_rec(dirs, p) == Some(dirs[k]),
    decreases dirs.len(),
{
    if k < dirs.len() - 1 {
        assert(dirs[dirs.len() - 1].path != p);
        let rest = dirs.drop_last();
        assert forall|i: int| 0 <= i < rest.len() && (#[trigger] rest[i]).path == p implies i
            == k by {
            assert(rest[i] == dirs[i]);
        }
        assert(rest[k] == dirs[k]);
        lemma_last_in(rest, p, k);
    }
}

pub(crate) proof fn lemma_not_in(dirs: Seq<DirRec>, p: Seq<Part>)
    requires
        forall|i: int| 0 <= i < dirs.len() ==> (#[trigger] dirs[i]).path != p,
    ensures
        crate::snapshot::first_rec(dirs, p) is None,
        crate::snapshot::last_rec(dirs, p) is None,
    decreases dirs.len(),
{
    if dirs.len() > 0 {
        assert(dirs[0].path != p);
        assert(dirs[dirs.len() - 1].path != p);
        let a = dirs.drop_first();
        assert forall|i: int| 0 <= i < a.len() implies (#[trigger] a[i]).path != p by {
            assert(a[i] == dirs[i + 1]);
        }
        let b = dirs.drop_last();
        assert forall|i: int| 0 <= i < b.len() implies (#[trigger] b[i]).path != p by {
            assert(b[i] == dirs[i]);
        }
        lemma_not_in(a, p);
        lemma_not_in(b, p);
    }
}

/// A captured directory other than the root is in the snapshot once, with its record.
proof fn lemma_captured(m: TreeModel, top: nat, s: SnapshotRec, p: Seq<Part>)
    requires
        m.wf(),
        crate::snapshot::captures(m, top, s),
        p != m.root(),
    ensures
        crate::snapshot::first_rec(s.dirs, p) == if m.has_dir(p) {
            Some(m.dir_rec(p))
        } else {
            None
        },
        crate::snapshot::last_rec(s.dirs, p) == if m.has_dir(p) {
            Some(m.dir_rec(p))
        } else {
            None
        },
{
    broadcast use vstd::seq_lib::group_to_multiset_ensures;

    let nodes = m.dirs.drop_first();
    let recs = m.dir_recs(nodes);
    assert(recs.no_duplicates()) by {
        assert forall|i: int, j: int| 0 <= i < recs.len() && 0 <= j < recs.len() && i != j implies recs[i]
            != recs[j] by {
            assert(nodes[i] == m.dirs[i + 1]);
            assert(nodes[j] == m.dirs[j + 1]);
            if i < j {
                assert(m.dirs[i + 1].path != m.dirs[j + 1].path);
            } else {
                assert(m.dirs[j + 1].path != m.dirs[i + 1].path);
            }
        }
    }
    recs.lemma_multiset_has_no_duplicates();
    s.dirs.lemma_multiset_has_no_duplicates_conv();
    assert forall|v: DirRec| #[trigger] s.dirs.contains(v) <==> recs.contains(v) by {
        assert(s.dirs.contains(v) <==> s.dirs.to_multiset().count(v) > 0);
        assert(recs.contains(v) <==> recs.to_multiset().count(v) > 0);
    }
    assert forall|i: int| 0 <= i < s.dirs.len() implies m.has_dir((#[trigger] s.dirs[i]).path)
        && s.dirs[i] == m.dir_rec(s.dirs[i].path) by {
        assert(s.dirs.contains(s.dirs[i]));
        assert(recs.contains(s.dirs[i]));
        let j = choose|j: int| 0 <= j < recs.len() && recs[j] == s.dirs[i];
        assert(nodes[j] == m.dirs[j + 1]);
    }
    if m.has_dir(p) {
        let k = choose|k: int| 0 <= k < m.dirs.len() && (#[trigger] m.dirs[k]).path == p;
        assert(k > 0);
        assert(nodes[k - 1] == m.dirs[k]);
        assert(recs[k - 1] == m.dir_rec(p));
        assert(recs.contains(m.dir_rec(p)));
        assert(s.dirs.contains(m.dir_rec(p)));
        let i = choose|i: int| 0 <= i < s.dirs.len() && s.dirs[i] == m.dir_rec(p);
        assert forall|j: int| 0 <= j < s.dirs.len() && (#[trigger] s.dirs[j]).path == p implies j
            == i by {
            assert(s.dirs[j] == s.dirs[i]);
        }
        lemma_first_in(s.dirs, p, i);
        lemma_last_in(s.dirs, p, i);
    } else {
        assert forall|i: int| 0 <= i < s.dirs.len() implies (#[trigger] s.dirs[i]).path != p by {
            assert(m.has_dir(s.dirs[i].path));
        }
        lemma_not_in(s.dirs, p);
    }
}

/// A snapshot answers for the root and for every directory of the tree it was taken
/// of, and for no other, with the totals that the tree has.
pub proof fn law_capture_answers_for_every_folder(
    m: TreeModel,
    top: nat,
    s: SnapshotRec,
    at: Seq<Part>,
)
    requires
        m.wf(),
        crate::snapshot::captures(m, top, s),
    ensures
        s.totals(at) == if m.has_dir(at) {
            Some((m.total_size(at) as u64, m.total_files(at) as u64))
        } else {
            None
        },
{
    if at == m.root() {
        assert(m.dirs[0].path == at);
        assert(m.has_dir(at));
    } else {
        lemma_captured(m, top, s, at);
    }
}

/// A snapshot has the immediate sub-folders of every directory of the tree it was
/// taken of, with the records that the tree has.
pub proof fn law_capture_keeps_every_child(
    m: TreeModel,
    top: nat,
    s: SnapshotRec,
    at: Seq<Part>,
    p: Seq<Part>,
)
    requires
        m.wf(),
        crate::snapshot::captures(m, top, s),
        p != m.root(),
    ensures
        s.child(at, p) == if m.has_dir(p) && crate::path::parent_of(p) == Some(at) {
            Some(m.dir_rec(p))
        } else {
            None
        },
{
    lemma_captured(m, top, s, p);
}

/// The difference between snapshots of two trees is the difference between the trees:
/// the totals compared are those of the trees, and a sub-folder is reported as new or
/// vanished exactly if only the newer or only the older tree has it.
pub proof fn law_diff_compares_trees(
    before: TreeModel,
    after: TreeModel,
    top: nat,
    old: SnapshotRec,
    new: SnapshotRec,
    at: Seq<Part>,
    r: DiffRec,
)
    requires
        before.wf(),
        after.wf(),
        crate::snapshot::captures(before, top, old),
        crate::snapshot::captures(after, top, new),
        before.root() == after.root(),
        crate::snapshot::is_diff(old, new, at, r),
        crate::path::parent_of(after.root()) != Some(at),
    ensures
        after.has_dir(at),
        r.new_size == after.total_size(at) as u64,
        r.new_files == after.total_files(at) as u64,
        r.old_size == if before.has_dir(at) {
            before.total_size(at) as u64
        } else {
            0
        },
        r.old_files == if before.has_dir(at) {
            before.total_files(at) as u64
        } else {
            0
        },
        forall|v: DirRec| #[trigger]
            r.added.contains(v) <==> crate::path::parent_of(v.path) == Some(at) && after.has_dir(
                v.path,
            ) && !before.has_dir(v.path) && v == after.dir_rec(v.path),
        forall|v: DirRec| #[trigger]
            r.removed.contains(v) <==> crate::path::parent_of(v.path) == Some(at)
                && before.has_dir(v.path) && !after.has_dir(v.path) && v == before.dir_rec(v.path),
{
    law_capture_answers_for_every_folder(before, top, old, at);
    law_capture_answers_for_every_folder(after, top, new, at);
    assert forall|v: DirRec| #[trigger]
        r.added.contains(v) <==> crate::path::parent_of(v.path) == Some(at) && after.has_dir(
            v.path,
        ) && !before.has_dir(v.path) && v == after.dir_rec(v.path) by {
        assert(r.added.contains(v) <==> crate::snapshot::only_in(new, old, at)(v));
        if crate::path::parent_of(v.path) == Some(at) {
            law_capture_keeps_every_child(before, top, old, at, v.path);
            law_capture_keeps_every_child(after, top, new, at, v.path);
        }
    }
    assert forall|v: DirRec| #[trigger]
        r.removed.contains(v) <==> crate::path::parent_of(v.path) == Some(at) && before.has_dir(
            v.path,
        ) && !after.has_dir(v.path) && v == before.dir_rec(v.path) by {
        assert(r.removed.contains(v) <==> crate::snapshot::only_in(old, new, at)(v));
        if crate::path::parent_of(v.path) == Some(at) {
            law_capture_keeps_every_child(before, top, old, at, v.path);
            law_capture_keeps_every_child(after, top, new, at, v.path);
        }
    }
}

} // verus!

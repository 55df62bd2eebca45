//! What the reports of a tree promise of each other, and what removing from it and adding
//! to it leaves as it was.
use vstd::prelude::*;

use crate::model::{DirNode, TreeModel};
use crate::path::Part;
use crate::report::{DirRec, FileRec, ScanReport};
use crate::walk::WalkRec;

verus! {

/// The sum of `g` over a list.
pub open spec fn sum_by<V>(s: Seq<V>, g: spec_fn(V) -> nat) -> nat
    decreases s.len(),
{
    if s.len() == 0 {
        0
    } else {
        sum_by(s.drop_last(), g) + g(s.last())
    }
}

proof fn lemma_sum_remove<V>(s: Seq<V>, k: int, g: spec_fn(V) -> nat)
    requires
        0 <= k < s.len(),
    ensures
        sum_by(s, g) == sum_by(s.remove(k), g) + g(s[k]),
    decreases s.len(),
{
    if k == s.len() - 1 {
        assert(s.remove(k) =~= s.drop_last());
    } else {
        lemma_sum_remove(s.drop_last(), k, g);
        assert(s.remove(k).drop_last() =~= s.drop_last().remove(k));
        assert(s.remove(k).last() == s.last());
    }
}

/// A sum does not depend on the order.
proof fn lemma_sum_permuted<V>(a: Seq<V>, b: Seq<V>, g: spec_fn(V) -> nat)
    requires
        a.to_multiset() == b.to_multiset(),
    ensures
        sum_by(a, g) == sum_by(b, g),
    decreases a.len(),
{
    broadcast use vstd::seq_lib::group_to_multiset_ensures;

    assert(a.len() == a.to_multiset().len());
    assert(b.len() == b.to_multiset().len());
    if a.len() > 0 {
        let x = a.last();
        assert(a.contains(x));
        assert(a.to_multiset().count(x) > 0);
        assert(b.to_multiset().count(x) > 0);
        assert(b.contains(x));
        let k = choose|k: int| 0 <= k < b.len() && b[k] == x;
        let n = a.len() - 1;
        assert(a.remove(n) =~= a.drop_last());
        assert(a.remove(n).to_multiset() =~= a.to_multiset().remove(x));
        assert(b.remove(k).to_multiset() =~= b.to_multiset().remove(x));
        lemma_sum_permuted(a.drop_last(), b.remove(k), g);
        lemma_sum_remove(b, k, g);
    }
}

/// The bytes of a record.
pub open spec fn rec_size() -> spec_fn(DirRec) -> nat {
    |c: DirRec| c.size as nat
}

/// The files of a record.
pub open spec fn rec_files() -> spec_fn(DirRec) -> nat {
    |c: DirRec| c.file_count as nat
}

/// The directories that the tree has at or below the one of a record.
pub open spec fn rec_dirs(m: TreeModel) -> spec_fn(DirRec) -> nat {
    |c: DirRec| m.total(c.path, crate::model::own_dirs())
}

/// The totals of the sub-folders of a directory, summed over their records.
proof fn lemma_children_sum(m: TreeModel, kids: Seq<DirNode>, d: Seq<Part>)
    requires
        forall|i: int|
            0 <= i < kids.len() ==> m.total_size((#[trigger] kids[i]).path) <= u64::MAX
                && m.total_files(kids[i].path) <= u64::MAX,
    ensures
        sum_by(m.dir_recs(kids), rec_size()) == crate::laws::totals_of(
            m,
            kids,
            crate::model::own_size(),
        ),
        sum_by(m.dir_recs(kids), rec_files()) == crate::laws::totals_of(
            m,
            kids,
            crate::model::own_files(),
        ),
        sum_by(m.dir_recs(kids), rec_dirs(m)) == crate::laws::totals_of(
            m,
            kids,
            crate::model::own_dirs(),
        ),
    decreases kids.len(),
{
    if kids.len() > 0 {
        let rest = kids.drop_last();
        assert forall|i: int| 0 <= i < rest.len() implies m.total_size((#[trigger] rest[i]).path)
            <= u64::MAX && m.total_files(rest[i].path) <= u64::MAX by {
            assert(rest[i] == kids[i]);
        }
        lemma_children_sum(m, rest, d);
        assert(m.dir_recs(kids).drop_last() =~= m.dir_recs(rest));
        assert(kids.last() == kids[kids.len() - 1]);
    }
}

/// What lies in a part of a directory counts no more than what lies in all of it.
proof fn lemma_part_total(m: TreeModel, c: Seq<Part>, d: Seq<Part>, g: spec_fn(DirNode) -> nat)
    requires
        crate::model::within(m.root(), c, d),
    ensures
        m.total(c, g) <= m.total(d, g),
{
    let root = m.root();
    let of_c = crate::model::only_within(root, c, g);
    let of_d = crate::model::only_within(root, d, g);
    let rest = |e: DirNode| (of_d(e) - of_c(e)) as nat;
    assert forall|i: int| 0 <= i < m.dirs.len() implies of_d(#[trigger] m.dirs[i]) == of_c(
        m.dirs[i],
    ) + rest(m.dirs[i]) by {
        let p = m.dirs[i].path;
        if crate::model::within(root, p, c) {
            crate::model::lemma_within_trans(root, p, c, d);
        }
    }
    crate::model::lemma_sum_split(m.dirs, of_c, rest, of_d);
}

/// Every sub-folder that a report lists is a directory of the tree right below, and is
/// listed with the totals that its own report shows.
pub proof fn law_children_match_their_reports(
    m: TreeModel,
    p: Seq<Part>,
    n: nat,
    r: ScanReport,
    i: int,
    k: nat,
    own: ScanReport,
)
    requires
        m.wf(),
        m.has_dir(p),
        m.is_report(p, n, r),
        0 <= i < r.children@.len(),
        m.is_report(r.children@[i].path@, k, own),
    ensures
        m.has_dir(r.children@[i].path@),
        crate::model::up(m.root(), r.children@[i].path@) == p,
        r.children@[i].size == own.total_size,
        r.children@[i].file_count == own.total_files,
        rec_dirs(m)(r.children@[i]@) == 1 + own.total_dirs,
{
    lemma_child_listed(m, p, n, r, i);
}

/// The totals of a report that lists all sub-folders are those of the files directly in the
/// directory and of the sub-folders, each of which counts as a directory, too.
pub proof fn law_report_sums(m: TreeModel, p: Seq<Part>, n: nat, r: ScanReport)
    requires
        m.wf(),
        m.has_dir(p),
        m.is_report(p, n, r),
        m.children(p).len() <= n,
    ensures
        r.total_size == r.root_files_size + sum_by(crate::sort::views(r.children@), rec_size()),
        r.total_files == r.root_files_count + sum_by(crate::sort::views(r.children@), rec_files()),
        r.total_dirs == sum_by(crate::sort::views(r.children@), rec_dirs(m)),
{
    broadcast use vstd::seq_lib::group_to_multiset_ensures;

    let root = m.root();
    let listed = crate::sort::views(r.children@);
    let recs = m.children(p);
    let kids = m.dirs.filter(crate::model::child_of(root, p));
    let sorted = choose|sorted: Seq<DirRec>| #[trigger]
        crate::sort::is_stable_sort(recs, sorted, crate::report::larger_dir()) && listed
            == crate::report::at_most(sorted, n);
    assert(sorted.to_multiset().len() == recs.to_multiset().len());
    assert(listed == sorted);
    lemma_sum_permuted(listed, recs, rec_size());
    lemma_sum_permuted(listed, recs, rec_files());
    lemma_sum_permuted(listed, recs, rec_dirs(m));
    assert forall|i: int| 0 <= i < kids.len() implies m.total_size((#[trigger] kids[i]).path)
        <= u64::MAX && m.total_files(kids[i].path) <= u64::MAX by {
        let k = crate::sort::lemma_kept_from(m.dirs, crate::model::child_of(root, p), i);
        let c = kids[i].path;
        assert(crate::model::within(root, p, p));
        assert(crate::model::within(root, c, p));
        lemma_part_total(m, c, p, crate::model::own_size());
        lemma_part_total(m, c, p, crate::model::own_files());
    }
    lemma_children_sum(m, kids, p);
    let k = choose|k: int| 0 <= k < m.dirs.len() && (#[trigger] m.dirs[k]).path == p;
    crate::laws::law_tree_adds_up(m, k, crate::model::own_size());
    crate::laws::law_tree_adds_up(m, k, crate::model::own_files());
    crate::laws::law_tree_adds_up(m, k, crate::model::own_dirs());
    lemma_files_of_dir(m, k);
}

/// The files of a directory are those of its node.
proof fn lemma_files_of_dir(m: TreeModel, k: int)
    requires
        m.wf(),
        0 <= k < m.dirs.len(),
    ensures
        m.files_of(m.dirs[k].path) == m.dirs[k].files,
{
    let p = m.dirs[k].path;
    let i = choose|i: int| 0 <= i < m.dirs.len() && (#[trigger] m.dirs[i]).path == p;
    if i < k {
        assert(m.dirs[i].path != m.dirs[k].path);
    } else if k < i {
        assert(m.dirs[k].path != m.dirs[i].path);
    }
}

/// A sub-folder that a report lists is a directory right below, with its totals.
proof fn lemma_child_listed(m: TreeModel, p: Seq<Part>, n: nat, r: ScanReport, i: int)
    requires
        m.wf(),
        m.has_dir(p),
        m.is_report(p, n, r),
        0 <= i < r.children@.len(),
    ensures
        ({
            let c = r.children@[i]@;
            &&& m.has_dir(c.path)
            &&& c.path != m.root()
            &&& crate::model::up(m.root(), c.path) == p
            &&& c.size == m.total_size(c.path)
            &&& c.file_count == m.total_files(c.path)
        }),
{
    let root = m.root();
    let listed = crate::sort::views(r.children@);
    let recs = m.children(p);
    let kids = m.dirs.filter(crate::model::child_of(root, p));
    assert(crate::report::is_top(recs, listed, n, crate::report::larger_dir()));
    let sorted = choose|sorted: Seq<DirRec>| #[trigger]
        crate::sort::is_stable_sort(recs, sorted, crate::report::larger_dir()) && listed
            == crate::report::at_most(sorted, n);
    assert(listed.len() == r.children@.len());
    assert(listed[i] == sorted[i]);
    let a = lemma_same_values(sorted, recs, i);
    let k = crate::sort::lemma_kept_from(m.dirs, crate::model::child_of(root, p), a);
    assert(kids[a] == m.dirs[k]);
    let c = kids[a].path;
    assert(crate::model::within(root, p, p));
    assert(crate::model::within(root, c, p));
    lemma_part_total(m, c, p, crate::model::own_size());
    lemma_part_total(m, c, p, crate::model::own_files());
}

/// Every value of a permuted list is in the other.
proof fn lemma_same_values<V>(a: Seq<V>, b: Seq<V>, i: int) -> (k: int)
    requires
        a.to_multiset() == b.to_multiset(),
        0 <= i < a.len(),
    ensures
        0 <= k < b.len(),
        b[k] == a[i],
{
    broadcast use vstd::seq_lib::group_to_multiset_ensures;

    assert(a.contains(a[i]));
    assert(b.to_multiset().count(a[i]) > 0);
    assert(b.contains(a[i]));
    choose|k: int| 0 <= k < b.len() && b[k] == a[i]
}

/// Every file sits in the directory that its path names, no path occurs twice, and no path
/// is that of a file and of a directory.
pub open spec fn tidy(m: TreeModel) -> bool {
    &&& m.wf()
    &&& forall|i: int, a: int|
        0 <= i < m.dirs.len() && 0 <= a < m.dirs[i].files.len() ==> {
            let f = #[trigger] m.dirs[i].files[a];
            &&& crate::path::parent_of(f.path) == Some(m.dirs[i].path)
            &&& !m.has_dir(f.path)
        }
    &&& forall|i: int, a: int, b: int|
        0 <= i < m.dirs.len() && 0 <= a < b < m.dirs[i].files.len() ==> (
        #[trigger] m.dirs[i].files[a]).path != (#[trigger] m.dirs[i].files[b]).path
}

/// The tree of a walk below its root is tidy where no path was walked twice or as a file
/// and as a directory.
pub proof fn law_walked_trees_are_tidy(m: TreeModel, dirs: Seq<Seq<Part>>, files: Seq<FileRec>)
    requires
        crate::model::is_tree_of(m, m.root(), dirs, files),
        crate::laws::walks_below(m.root(), dirs, files),
        forall|i: int, j: int|
            0 <= i < j < files.len() ==> (#[trigger] files[i]).path != (#[trigger] files[j]).path,
        forall|i: int|
            0 <= i < files.len() ==> !crate::model::walked_dir(
                m.root(),
                dirs,
                files,
                (#[trigger] files[i]).path,
            ),
    ensures
        tidy(m),
{
    let root = m.root();
    assert forall|i: int, a: int| 0 <= i < m.dirs.len() && 0 <= a < m.dirs[i].files.len() implies {
        let f = #[trigger] m.dirs[i].files[a];
        &&& crate::path::parent_of(f.path) == Some(m.dirs[i].path)
        &&& !m.has_dir(f.path)
    } by {
        let held = crate::model::held_by(root, m.dirs[i].path);
        let n = crate::sort::lemma_kept_from(files, held, a);
        let p = files[n].path;
        assert(crate::laws::extends(root, p));
        assert(p[p.len() - 1] == p.last());
    }
    assert forall|i: int, a: int, b: int|
        0 <= i < m.dirs.len() && 0 <= a < b < m.dirs[i].files.len() implies (
    #[trigger] m.dirs[i].files[a]).path != (#[trigger] m.dirs[i].files[b]).path by {
        let held = crate::model::held_by(root, m.dirs[i].path);
        crate::sort::lemma_filter_order(files, held, a, b);
        let (c, d) = choose|c: int, d: int|
            0 <= c < d < files.len() && #[trigger] files[c] == files.filter(held)[a]
                && #[trigger] files[d] == files.filter(held)[b];
        assert(files[c].path != files[d].path);
    }
}

/// The directories of a tree after a removal: those at or below a removed directory are
/// gone, and all others are there.
pub proof fn law_removal_takes_only_what_lies_below(m: TreeModel, p: Seq<Part>, q: Seq<Part>)
    requires
        m.wf(),
        m.removable(p),
    ensures
        m.without(p).has_dir(q) == (m.has_dir(q) && !(m.has_dir(p) && crate::model::within(
            m.root(),
            q,
            p,
        ))),
        m.without(p).root() == m.root(),
        m.without(p).skipped == m.skipped,
        m.without(p).cancelled == m.cancelled,
        m.without(p).disk_total == m.disk_total,
        m.without(p).disk_free == m.disk_free,
{
    let root = m.root();
    let m2 = m.without(p);
    if m.has_dir(p) {
        let keep = crate::model::outside(root, p);
        if crate::model::within(root, root, p) {
            assert(root == p);
        }
        crate::model::lemma_filter_first(m.dirs, keep);
        if m2.has_dir(q) {
            let i = choose|i: int| 0 <= i < m2.dirs.len() && (#[trigger] m2.dirs[i]).path == q;
            let k = crate::sort::lemma_kept_from(m.dirs, keep, i);
            assert(m.dirs[k].path == q);
        }
        if m.has_dir(q) && !crate::model::within(root, q, p) {
            let k = choose|k: int| 0 <= k < m.dirs.len() && (#[trigger] m.dirs[k]).path == q;
            let i = crate::sort::lemma_kept_at(m.dirs, keep, k);
            assert(m2.dirs[i].path == q);
        }
    } else {
        assert forall|i: int| 0 <= i < m.dirs.len() implies (#[trigger] m2.dirs[i]).path
            == m.dirs[i].path by {}
        if m.has_dir(q) {
            let k = choose|k: int| 0 <= k < m.dirs.len() && (#[trigger] m.dirs[k]).path == q;
            assert(m2.dirs[k].path == q);
        }
        assert(m2.dirs[0].path == m.dirs[0].path);
    }
}

/// A removal leaves a well-formed tree.
proof fn lemma_without_wf(m: TreeModel, p: Seq<Part>)
    requires
        m.wf(),
        m.removable(p),
    ensures
        m.without(p).wf(),
{
    let root = m.root();
    let m2 = m.without(p);
    law_removal_takes_only_what_lies_below(m, p, root);
    if m.has_dir(p) {
        let keep = crate::model::outside(root, p);
        if crate::model::within(root, root, p) {
            assert(root == p);
        }
        crate::model::lemma_filter_first(m.dirs, keep);
        let path_of = |e: DirNode| e.path;
        crate::sort::lemma_filter_distinct(m.dirs, keep, path_of);
        assert forall|a: int, b: int| 0 <= a < b < m2.dirs.len() implies (#[trigger] m2.dirs[a]).path
            != (#[trigger] m2.dirs[b]).path by {
            assert(path_of(m2.dirs[a]) != path_of(m2.dirs[b]));
        }
        assert forall|b: int| 0 < b < m2.dirs.len() implies exists|a: int|
            0 <= a < b && (#[trigger] m2.dirs[a]).path == crate::model::up(
                root,
                (#[trigger] m2.dirs[b]).path,
            ) by {
            lemma_above_kept(m, p, b);
        }
    } else {
        assert forall|i: int| 0 <= i < m.dirs.len() implies (#[trigger] m2.dirs[i]).path
            == m.dirs[i].path by {}
        assert forall|b: int| 0 < b < m2.dirs.len() implies exists|a: int|
            0 <= a < b && (#[trigger] m2.dirs[a]).path == crate::model::up(
                root,
                (#[trigger] m2.dirs[b]).path,
            ) by {
            assert(m2.dirs[b].path == m.dirs[b].path);
            let a = choose|a: int|
                0 <= a < b && (#[trigger] m.dirs[a]).path == crate::model::up(
                    root,
                    m.dirs[b].path,
                );
            assert(m2.dirs[a].path == m.dirs[a].path);
        }
    }
}

/// What is above a directory that stays, stays.
proof fn lemma_above_kept(m: TreeModel, p: Seq<Part>, b: int) -> (a: int)
    requires
        m.wf(),
        m.has_dir(p),
        p != m.root(),
        0 < b < m.dirs.filter(crate::model::outside(m.root(), p)).len(),
    ensures
        ({
            let left = m.dirs.filter(crate::model::outside(m.root(), p));
            0 <= a < b && left[a].path == crate::model::up(m.root(), left[b].path)
        }),
{
    let root = m.root();
    let keep = crate::model::outside(root, p);
    let left = m.dirs.filter(keep);
    if crate::model::within(root, root, p) {
        assert(root == p);
    }
    crate::model::lemma_filter_first(m.dirs, keep);
    let path_of = |e: DirNode| e.path;
    crate::sort::lemma_filter_distinct(m.dirs, keep, path_of);
    assert(path_of(left[0]) != path_of(left[b]));
    let k = crate::sort::lemma_kept_from(m.dirs, keep, b);
    assert(k > 0);
    let h = choose|h: int|
        0 <= h < k && (#[trigger] m.dirs[h]).path == crate::model::up(root, m.dirs[k].path);
    assert(keep(m.dirs[h]));
    let a = crate::sort::lemma_kept_at(m.dirs, keep, h);
    if a == b {
        assert(m.dirs[h].path != m.dirs[k].path);
    } else if b < a {
        crate::sort::lemma_filter_order(m.dirs, keep, b, a);
        let (c, d) = choose|c: int, d: int|
            0 <= c < d < m.dirs.len() && #[trigger] m.dirs[c] == left[b] && #[trigger] m.dirs[d]
                == left[a];
        if c < k {
            assert(m.dirs[c].path != m.dirs[k].path);
        } else if k < c {
            assert(m.dirs[k].path != m.dirs[c].path);
        }
        if d < h {
            assert(m.dirs[d].path != m.dirs[h].path);
        } else if h < d {
            assert(m.dirs[h].path != m.dirs[d].path);
        }
    }
    a
}

/// The files of a directory that a removal leaves.
proof fn lemma_files_left(m: TreeModel, p: Seq<Part>, q: Seq<Part>)
    requires
        m.wf(),
        m.removable(p),
        m.without(p).has_dir(q),
    ensures
        m.has_dir(q),
        m.without(p).files_of(q) == if m.has_dir(p) || crate::path::parent_of(p) != Some(q) {
            m.files_of(q)
        } else {
            m.files_of(q).remove(crate::model::first_file(m.files_of(q), p))
        },
{
    let root = m.root();
    let m2 = m.without(p);
    law_removal_takes_only_what_lies_below(m, p, q);
    lemma_without_wf(m, p);
    let i = choose|i: int| 0 <= i < m2.dirs.len() && (#[trigger] m2.dirs[i]).path == q;
    lemma_files_of_dir(m2, i);
    if m.has_dir(p) {
        let k = crate::sort::lemma_kept_from(m.dirs, crate::model::outside(root, p), i);
        assert(m.dirs[k] == m2.dirs[i]);
        lemma_files_of_dir(m, k);
    } else {
        lemma_files_of_dir(m, i);
    }
}

/// A tidy tree is tidy after a removal, and what was removed cannot be removed again.
pub proof fn law_removed_stays_removed(m: TreeModel, p: Seq<Part>)
    requires
        tidy(m),
        m.removable(p),
    ensures
        tidy(m.without(p)),
        !m.without(p).removable(p),
{
    let root = m.root();
    let m2 = m.without(p);
    law_removal_takes_only_what_lies_below(m, p, p);
    lemma_without_wf(m, p);
    assert(crate::model::within(root, p, p));
    assert forall|i: int, a: int| 0 <= i < m2.dirs.len() && 0 <= a < m2.dirs[i].files.len() implies {
        let f = #[trigger] m2.dirs[i].files[a];
        &&& crate::path::parent_of(f.path) == Some(m2.dirs[i].path)
        &&& !m2.has_dir(f.path)
    } by {
        let (k, b) = lemma_file_left(m, p, i, a);
        assert(m.dirs[k].files[b] == m2.dirs[i].files[a]);
        law_removal_takes_only_what_lies_below(m, p, m2.dirs[i].files[a].path);
    }
    assert forall|i: int, a: int, b: int|
        0 <= i < m2.dirs.len() && 0 <= a < b < m2.dirs[i].files.len() implies (
    #[trigger] m2.dirs[i].files[a]).path != (#[trigger] m2.dirs[i].files[b]).path by {
        lemma_files_left_apart(m, p, i, a, b);
    }
    if m2.removable(p) {
        assert(!m2.has_dir(p));
        let q = crate::path::parent_of(p)->0;
        lemma_files_left(m, p, q);
        let files = m2.files_of(q);
        let j = choose|j: int| 0 <= j < files.len() && (#[trigger] files[j]).path == p;
        let k = choose|k: int| 0 <= k < m.dirs.len() && (#[trigger] m.dirs[k]).path == q;
        lemma_files_of_dir(m, k);
        if m.has_dir(p) {
            assert(!m.has_dir(m.dirs[k].files[j].path));
        } else {
            let f = crate::model::first_file(m.files_of(q), p);
            crate::model::lemma_first_file(m.files_of(q), p);
            if j < f {
                assert(m.dirs[k].files[j].path == p);
                assert(m.dirs[k].files[j].path != m.dirs[k].files[f].path);
            } else {
                assert(m.dirs[k].files[j + 1].path == p);
                assert(m.dirs[k].files[f].path != m.dirs[k].files[j + 1].path);
            }
        }
    }
}

/// A file that a removal leaves was there.
proof fn lemma_file_left(m: TreeModel, p: Seq<Part>, i: int, a: int) -> (at: (int, int))
    requires
        m.wf(),
        m.removable(p),
        0 <= i < m.without(p).dirs.len(),
        0 <= a < m.without(p).dirs[i].files.len(),
    ensures
        0 <= at.0 < m.dirs.len(),
        0 <= at.1 < m.dirs[at.0].files.len(),
        m.dirs[at.0].path == m.without(p).dirs[i].path,
        m.dirs[at.0].files[at.1] == m.without(p).dirs[i].files[a],
        m.has_dir(p) ==> !crate::model::within(m.root(), m.dirs[at.0].path, p),
{
    let m2 = m.without(p);
    if m.has_dir(p) {
        let k = crate::sort::lemma_kept_from(m.dirs, crate::model::outside(m.root(), p), i);
        (k, a)
    } else {
        let q = crate::path::parent_of(p)->0;
        if m.dirs[i].path == q {
            lemma_files_of_dir(m, i);
            crate::model::lemma_first_file(m.dirs[i].files, p);
            let f = crate::model::first_file(m.dirs[i].files, p);
            if a < f {
                (i, a)
            } else {
                (i, a + 1)
            }
        } else {
            (i, a)
        }
    }
}

proof fn lemma_files_left_apart(m: TreeModel, p: Seq<Part>, i: int, a: int, b: int)
    requires
        tidy(m),
        m.removable(p),
        0 <= i < m.without(p).dirs.len(),
        0 <= a < b < m.without(p).dirs[i].files.len(),
    ensures
        m.without(p).dirs[i].files[a].path != m.without(p).dirs[i].files[b].path,
{
    let m2 = m.without(p);
    if m.has_dir(p) {
        let k = crate::sort::lemma_kept_from(m.dirs, crate::model::outside(m.root(), p), i);
        assert(m.dirs[k].files[a].path != m.dirs[k].files[b].path);
    } else {
        let q = crate::path::parent_of(p)->0;
        if m.dirs[i].path == q {
            lemma_files_of_dir(m, i);
            crate::model::lemma_first_file(m.dirs[i].files, p);
            let f = crate::model::first_file(m.dirs[i].files, p);
            let x = if a < f {
                a
            } else {
                a + 1
            };
            let y = if b < f {
                b
            } else {
                b + 1
            };
            assert(m.dirs[i].files[x].path != m.dirs[i].files[y].path);
        } else {
            assert(m.dirs[i].files[a].path != m.dirs[i].files[b].path);
        }
    }
}

/// Lists that agree where a filter holds, and on where it holds, keep the same values.
proof fn lemma_filter_same<V>(s: Seq<V>, t: Seq<V>, keep: spec_fn(V) -> bool)
    requires
        s.len() == t.len(),
        forall|i: int|
            0 <= i < s.len() ==> keep(#[trigger] s[i]) == keep(t[i]) && (keep(s[i]) ==> s[i]
                == t[i]),
    ensures
        s.filter(keep) == t.filter(keep),
    decreases s.len(),
{
    reveal(Seq::filter);
    if s.len() > 0 {
        let a = s.drop_last();
        let b = t.drop_last();
        assert forall|i: int| 0 <= i < a.len() implies keep(#[trigger] a[i]) == keep(b[i]) && (keep(
            a[i],
        ) ==> a[i] == b[i]) by {
            assert(a[i] == s[i] && b[i] == t[i]);
        }
        lemma_filter_same(a, b, keep);
        assert(s[s.len() - 1] == s.last() && t[t.len() - 1] == t.last());
    }
}

/// Dropping directories that do not lie below `q` keeps the files below it.
proof fn lemma_files_filtered(
    root: Seq<Part>,
    dirs: Seq<DirNode>,
    keep: spec_fn(DirNode) -> bool,
    q: Seq<Part>,
)
    requires
        forall|i: int|
            0 <= i < dirs.len() && !keep(#[trigger] dirs[i]) ==> !crate::model::within(
                root,
                dirs[i].path,
                q,
            ),
    ensures
        crate::model::files_within(root, dirs.filter(keep), q) == crate::model::files_within(
            root,
            dirs,
            q,
        ),
    decreases dirs.len(),
{
    reveal(Seq::filter);
    if dirs.len() > 0 {
        let rest = dirs.drop_last();
        assert forall|i: int| 0 <= i < rest.len() && !keep(#[trigger] rest[i]) implies
            !crate::model::within(root, rest[i].path, q) by {
            assert(rest[i] == dirs[i]);
        }
        lemma_files_filtered(root, rest, keep, q);
        assert(dirs[dirs.len() - 1] == dirs.last());
        if keep(dirs.last()) {
            assert(dirs.filter(keep).drop_last() =~= rest.filter(keep));
        }
    }
}

/// Changing files of directories that do not lie below `q` keeps the files below it.
proof fn lemma_files_same(root: Seq<Part>, a: Seq<DirNode>, b: Seq<DirNode>, q: Seq<Part>)
    requires
        a.len() == b.len(),
        forall|i: int|
            0 <= i < a.len() ==> (#[trigger] a[i]).path == b[i].path && (crate::model::within(
                root,
                a[i].path,
                q,
            ) ==> a[i] == b[i]),
    ensures
        crate::model::files_within(root, a, q) == crate::model::files_within(root, b, q),
    decreases a.len(),
{
    if a.len() > 0 {
        let x = a.drop_last();
        let y = b.drop_last();
        assert forall|i: int| 0 <= i < x.len() implies (#[trigger] x[i]).path == y[i].path && (
        crate::model::within(root, x[i].path, q) ==> x[i] == y[i]) by {
            assert(x[i] == a[i] && y[i] == b[i]);
        }
        lemma_files_same(root, x, y, q);
        assert(a[a.len() - 1] == a.last() && b[b.len() - 1] == b.last());
    }
}

/// The totals of a directory that does not lie above what is removed stay.
proof fn lemma_totals_stay(m: TreeModel, p: Seq<Part>, q: Seq<Part>)
    requires
        m.wf(),
        m.removable(p),
        m.has_dir(p) ==> !crate::model::within(m.root(), q, p),
        !crate::model::within(m.root(), p, q),
    ensures
        m.without(p).total_size(q) == m.total_size(q),
        m.without(p).total_files(q) == m.total_files(q),
        m.without(p).total_dirs(q) == m.total_dirs(q),
{
    if m.has_dir(p) {
        crate::model::law_remove_dir(m, p, q, crate::model::own_size());
        crate::model::law_remove_dir(m, p, q, crate::model::own_files());
        crate::model::law_remove_dir(m, p, q, crate::model::own_dirs());
    } else {
        assert(p != m.root()) by {
            assert(m.dirs[0].path == m.root());
        }
        crate::model::law_remove_file(m, crate::path::parent_of(p)->0, p, q);
    }
}

/// A removal leaves every report as it was, but those of the directories above what was
/// removed.
pub proof fn law_other_reports_stay(
    m: TreeModel,
    p: Seq<Part>,
    q: Seq<Part>,
    n: nat,
    r: ScanReport,
)
    requires
        m.wf(),
        m.removable(p),
        m.without(p).has_dir(q),
        !crate::model::within(m.root(), p, q),
    ensures
        m.without(p).is_report(q, n, r) == m.is_report(q, n, r),
{
    let root = m.root();
    let m2 = m.without(p);
    law_removal_takes_only_what_lies_below(m, p, q);
    lemma_totals_stay(m, p, q);
    lemma_files_left(m, p, q);
    let child = crate::model::child_of(root, q);
    assert(m.dirs[0].path == root);
    if m.has_dir(p) {
        let keep = crate::model::outside(root, p);
        assert forall|i: int| 0 <= i < m.dirs.len() implies child(#[trigger] m.dirs[i]) == (keep(
            m.dirs[i],
        ) && child(m.dirs[i])) by {
            let c = m.dirs[i].path;
            if child(m.dirs[i]) && crate::model::within(root, c, p) {
                if c == p {
                    assert(crate::model::within(root, q, q));
                    assert(crate::model::within(root, p, q));
                }
            }
        }
        crate::sort::lemma_filter_twice(m.dirs, keep, child, child);
        assert forall|i: int| 0 <= i < m.dirs.len() && !keep(#[trigger] m.dirs[i]) implies
            !crate::model::within(root, m.dirs[i].path, q) by {
            let c = m.dirs[i].path;
            if crate::model::within(root, c, q) {
                crate::model::lemma_within_linear(root, c, p, q);
            }
        }
        lemma_files_filtered(root, m.dirs, keep, q);
    } else {
        let home = crate::path::parent_of(p)->0;
        assert(p != root);
        assert(crate::model::up(root, p) == home);
        assert forall|i: int| 0 <= i < m.dirs.len() implies child(#[trigger] m2.dirs[i]) == child(
            m.dirs[i],
        ) && (child(m2.dirs[i]) ==> m2.dirs[i] == m.dirs[i]) by {
            let c = m.dirs[i].path;
            if child(m.dirs[i]) && c == home {
                assert(crate::model::within(root, q, q));
                assert(crate::model::within(root, home, q));
            }
        }
        lemma_filter_same(m2.dirs, m.dirs, child);
        assert forall|i: int| 0 <= i < m.dirs.len() implies (#[trigger] m2.dirs[i]).path
            == m.dirs[i].path && (crate::model::within(root, m2.dirs[i].path, q) ==> m2.dirs[i]
            == m.dirs[i]) by {}
        lemma_files_same(root, m2.dirs, m.dirs, q);
    }
    let kids = m.dirs.filter(child);
    assert(m2.dirs.filter(child) == kids);
    assert forall|i: int| 0 <= i < kids.len() implies m2.dir_rec((#[trigger] kids[i]).path)
        == m.dir_rec(kids[i].path) by {
        let k = crate::sort::lemma_kept_from(m.dirs, child, i);
        let c = kids[i].path;
        assert(crate::model::within(root, q, q));
        assert(crate::model::within(root, c, q));
        if crate::model::within(root, p, c) {
            crate::model::lemma_within_trans(root, p, c, q);
        }
        if m.has_dir(p) && crate::model::within(root, c, p) {
            crate::model::lemma_within_linear(root, c, p, q);
        }
        lemma_totals_stay(m, p, c);
    }
    assert(m2.children(q) =~= m.children(q));
}

/// A file below a directory sits in some directory of the tree.
proof fn lemma_file_from(m: TreeModel, dirs: Seq<DirNode>, q: Seq<Part>, i: int) -> (at: (int, int))
    requires
        0 <= i < crate::model::files_within(m.root(), dirs, q).len(),
    ensures
        0 <= at.0 < dirs.len(),
        0 <= at.1 < dirs[at.0].files.len(),
        dirs[at.0].files[at.1] == crate::model::files_within(m.root(), dirs, q)[i],
    decreases dirs.len(),
{
    let rest = dirs.drop_last();
    let before = crate::model::files_within(m.root(), rest, q);
    if i < before.len() {
        let at = lemma_file_from(m, rest, q, i);
        assert(rest[at.0] == dirs[at.0]);
        at
    } else {
        (dirs.len() - 1, i - before.len())
    }
}

/// What was removed from a tidy tree is in no report any more: no sub-folder at or below
/// it, no file below it, and not itself.
pub proof fn law_removed_is_in_no_report(
    m: TreeModel,
    p: Seq<Part>,
    q: Seq<Part>,
    n: nat,
    r: ScanReport,
)
    requires
        tidy(m),
        m.removable(p),
        m.without(p).has_dir(q),
        m.without(p).is_report(q, n, r),
    ensures
        forall|i: int|
            0 <= i < r.children@.len() ==> !(m.has_dir(p) && crate::model::within(
                m.root(),
                (#[trigger] r.children@[i]).path@,
                p,
            )),
        forall|i: int|
            0 <= i < r.top_files@.len() ==> (#[trigger] r.top_files@[i]).path@ != p && !(m.has_dir(
                p,
            ) && crate::model::within(m.root(), r.top_files@[i].path@, p)),
{
    let root = m.root();
    let m2 = m.without(p);
    law_removed_stays_removed(m, p);
    law_removal_takes_only_what_lies_below(m, p, q);
    assert forall|i: int| 0 <= i < r.children@.len() implies !(m.has_dir(p) && crate::model::within(
        root,
        (#[trigger] r.children@[i]).path@,
        p,
    )) by {
        lemma_child_listed(m2, q, n, r, i);
        law_removal_takes_only_what_lies_below(m, p, r.children@[i].path@);
    }
    let listed = crate::sort::views(r.top_files@);
    let all = m2.all_files(q);
    assert(crate::report::is_largest(all, listed, n));
    let sorted = choose|sorted: Seq<FileRec>| #[trigger]
        crate::sort::sorted_by(sorted, crate::report::larger_file()) && sorted.to_multiset()
            == all.to_multiset() && listed == crate::report::at_most(sorted, n);
    assert forall|i: int| 0 <= i < r.top_files@.len() implies (#[trigger] r.top_files@[i]).path@ != p
        && !(m.has_dir(p) && crate::model::within(root, r.top_files@[i].path@, p)) by {
        let f = r.top_files@[i]@;
        assert(listed.len() == r.top_files@.len());
        assert(listed[i] == sorted[i]);
        let a = lemma_same_values(sorted, all, i);
        let (k, b) = lemma_file_from(m2, m2.dirs, q, a);
        assert(m2.dirs[k].files[b] == f);
        let home = m2.dirs[k].path;
        assert(crate::path::parent_of(f.path) == Some(home));
        let (k0, b0) = lemma_file_left(m, p, k, b);
        assert(m.dirs[k0].files[b0] == f);
        assert(!m.has_dir(f.path));
        if f.path == p {
            assert(m2.has_dir(home));
            lemma_files_of_dir(m2, k);
            assert(crate::model::names_file(m2.files_of(home), p));
            assert(m2.has_file(p));
            assert(m2.removable(p));
        }
        if m.has_dir(p) && crate::model::within(root, f.path, p) {
            assert(m.dirs[0].path == root);
            assert(crate::model::up(root, f.path) == home);
            assert(crate::model::within(root, home, p));
        }
    }
}

/// Adding a directory that the tree has changes nothing: adding it a second time leaves
/// the tree as it is after the first.
pub proof fn law_adding_a_directory_twice(
    m: TreeModel,
    p: Seq<Part>,
    once: TreeModel,
    twice: TreeModel,
)
    requires
        m.wf(),
        once.wf(),
        twice.wf(),
        m.is_with_dir(p, once),
        once.is_with_dir(p, twice),
    ensures
        once.has_dir(p),
        twice == once,
{
    assert(crate::model::within(m.root(), p, p));
    let a = once.dirs;
    let b = twice.dirs;
    assert(a =~= b.subrange(0, a.len() as int));
    if a.len() < b.len() {
        let q = b[a.len() as int].path;
        assert(twice.has_dir(q));
        assert(once.has_dir(q)) by {
            if crate::model::within(once.root(), p, q) {
                assert(crate::model::within(m.root(), p, q));
            }
        }
        let i = choose|i: int| 0 <= i < a.len() && (#[trigger] a[i]).path == q;
        assert(a[i] == b[i]);
        assert(b[i].path != b[a.len() as int].path);
    }
    assert(a =~= b);
}

/// Lists that are sorted by a number, largest first, and hold the same values show the same
/// numbers.
proof fn lemma_same_order<V>(a: Seq<V>, b: Seq<V>, key: spec_fn(V) -> int)
    requires
        forall|i: int, j: int| 0 <= i < j < a.len() ==> key(#[trigger] a[i]) >= key(#[trigger] a[j]),
        forall|i: int, j: int| 0 <= i < j < b.len() ==> key(#[trigger] b[i]) >= key(#[trigger] b[j]),
        a.to_multiset() == b.to_multiset(),
    ensures
        a.len() == b.len(),
        forall|i: int| 0 <= i < a.len() ==> key(#[trigger] a[i]) == key(b[i]),
    decreases a.len(),
{
    broadcast use vstd::seq_lib::group_to_multiset_ensures;

    assert(a.len() == a.to_multiset().len());
    assert(b.len() == b.to_multiset().len());
    if a.len() > 0 {
        let k = lemma_same_values(a, b, 0);
        let h = lemma_same_values(b, a, 0);
        assert(key(b[0]) >= key(b[k]));
        assert(key(a[0]) >= key(a[h]));
        let a1 = a.remove(0);
        let b1 = b.remove(k);
        assert(a1.to_multiset() =~= a.to_multiset().remove(a[0]));
        assert(b1.to_multiset() =~= b.to_multiset().remove(b[k]));
        assert forall|i: int| 0 <= i < a1.len() implies #[trigger] a1[i] == a[i + 1] by {}
        assert forall|i: int| 0 <= i < b1.len() implies #[trigger] b1[i] == b[if i < k {
            i
        } else {
            i + 1
        }] by {}
        assert forall|i: int, j: int| 0 <= i < j < b1.len() implies key(#[trigger] b1[i]) >= key(
            #[trigger] b1[j],
        ) by {
            let x = if i < k {
                i
            } else {
                i + 1
            };
            let y = if j < k {
                j
            } else {
                j + 1
            };
            assert(key(b[x]) >= key(b[y]));
        }
        lemma_same_order(a1, b1, key);
        assert forall|i: int| 0 <= i < a.len() implies key(#[trigger] a[i]) == key(b[i]) by {
            if i > 0 {
                assert(key(a1[i - 1]) == key(b1[i - 1]));
                if i - 1 < k {
                    // Everything up to `k` ties with the first.
                    assert(key(b[0]) >= key(b[i - 1]) || i == 1);
                    assert(key(b[i - 1]) >= key(b[i]));
                    assert(i == k || key(b[i]) >= key(b[k]));
                }
            }
        }
    }
}

/// Lists of directories, each of them once, that hold the same records are permutations of
/// each other.
proof fn lemma_same_folders(a: Seq<DirRec>, b: Seq<DirRec>)
    requires
        a.no_duplicates(),
        b.no_duplicates(),
        forall|v: DirRec| #[trigger] a.contains(v) <==> b.contains(v),
    ensures
        a.to_multiset() == b.to_multiset(),
{
    broadcast use vstd::seq_lib::group_to_multiset_ensures;

    a.lemma_multiset_has_no_duplicates();
    b.lemma_multiset_has_no_duplicates();
    assert forall|v: DirRec| a.to_multiset().count(v) == b.to_multiset().count(v) by {
        assert(a.contains(v) <==> a.to_multiset().count(v) > 0);
        assert(b.contains(v) <==> b.to_multiset().count(v) > 0);
        if a.contains(v) {
            assert(a.to_multiset().contains(v));
            assert(b.to_multiset().contains(v));
        }
    }
    assert(a.to_multiset() =~= b.to_multiset());
}

/// Two lists of the sub-folders of the same directory hold the same records.
proof fn lemma_same_folder_lists(
    d: Seq<Part>,
    dirs: Seq<Seq<Part>>,
    files: Seq<FileRec>,
    a: Seq<DirRec>,
    b: Seq<DirRec>,
)
    requires
        crate::scan::is_folder_list(d, dirs, files, a),
        crate::scan::is_folder_list(d, dirs, files, b),
    ensures
        a.to_multiset() == b.to_multiset(),
{
    assert forall|v: DirRec| #[trigger] a.contains(v) <==> b.contains(v) by {
        if a.contains(v) {
            let i = choose|i: int| 0 <= i < a.len() && a[i] == v;
            lemma_listed_too(d, dirs, files, a, b, i);
        }
        if b.contains(v) {
            let i = choose|i: int| 0 <= i < b.len() && b[i] == v;
            lemma_listed_too(d, dirs, files, b, a, i);
        }
    }
    assert(a.no_duplicates()) by {
        assert forall|i: int, j: int| 0 <= i < a.len() && 0 <= j < a.len() && i != j implies a[i]
            != a[j] by {
            if i < j {
                assert(a[i].path != a[j].path);
            } else {
                assert(a[j].path != a[i].path);
            }
        }
    }
    assert(b.no_duplicates()) by {
        assert forall|i: int, j: int| 0 <= i < b.len() && 0 <= j < b.len() && i != j implies b[i]
            != b[j] by {
            if i < j {
                assert(b[i].path != b[j].path);
            } else {
                assert(b[j].path != b[i].path);
            }
        }
    }
    lemma_same_folders(a, b);
}

proof fn lemma_listed_too(
    d: Seq<Part>,
    dirs: Seq<Seq<Part>>,
    files: Seq<FileRec>,
    a: Seq<DirRec>,
    b: Seq<DirRec>,
    i: int,
)
    requires
        crate::scan::is_folder_list(d, dirs, files, a),
        crate::scan::is_folder_list(d, dirs, files, b),
        0 <= i < a.len(),
    ensures
        b.contains(a[i]),
{
    let c = a[i].path;
    assert(crate::scan::lists(a, c));
    assert(crate::scan::lists(b, c));
    let j = choose|j: int| 0 <= j < b.len() && (#[trigger] b[j]).path == c;
    assert(a[i] == crate::scan::folder_rec(d, files, c));
    assert(b[j] == crate::scan::folder_rec(d, files, b[j].path));
}

/// What a walk of `d` sees of what a walk from further above saw.
pub open spec fn seen_below(w: WalkRec, d: Seq<Part>) -> WalkRec {
    WalkRec {
        files: w.files.filter(crate::laws::below(d)),
        dirs: w.dirs.filter(crate::laws::dir_below(d)),
        skipped: w.skipped.filter(|q: Seq<Part>| d.is_prefix_of(q)),
    }
}

/// The walk saw nothing but what lies at or below `root`, and every directory above
/// something that it saw, each once.
pub open spec fn is_whole_walk(root: Seq<Part>, w: WalkRec) -> bool {
    &&& crate::laws::walks_below(root, w.dirs, w.files)
    &&& w.dirs.no_duplicates()
    &&& forall|p: Seq<Part>|
        p != root && crate::model::walked_dir(root, w.dirs, w.files, p)
            ==> #[trigger] w.dirs.contains(p)
    &&& forall|i: int|
        0 <= i < w.skipped.len() ==> #[trigger] w.skipped[i] == root || crate::laws::extends(
            root,
            w.skipped[i],
        )
}

/// The report that a tree gives of one of its folders is the report of a fresh scan of just
/// that folder: the same totals and counts, and sub-folders and files of the same sizes.
pub proof fn law_drill_in_is_a_fresh_scan(
    m: TreeModel,
    w: WalkRec,
    d: Seq<Part>,
    n: nat,
    disk: (u64, u64),
    r: ScanReport,
    fresh: ScanReport,
)
    requires
        crate::model::is_tree_of(m, m.root(), w.dirs, w.files),
        is_whole_walk(m.root(), w),
        m.skipped == w.skipped,
        w.files.len() <= u64::MAX,
        m.has_dir(d),
        m.is_report(d, n, r),
        crate::scan::is_scan(d, n, seen_below(w, d), disk, fresh),
    ensures
        r.root@ == fresh.root@,
        r.total_size == fresh.total_size,
        r.total_files == fresh.total_files,
        r.total_dirs == fresh.total_dirs,
        r.skipped == fresh.skipped,
        r.root_files_size == fresh.root_files_size,
        r.root_files_count == fresh.root_files_count,
        r.children@.len() == fresh.children@.len(),
        forall|i: int|
            0 <= i < r.children@.len() ==> (#[trigger] r.children@[i]).size
                == fresh.children@[i].size,
        r.top_files@.len() == fresh.top_files@.len(),
        forall|i: int|
            0 <= i < r.top_files@.len() ==> (#[trigger] r.top_files@[i]).size
                == fresh.top_files@[i].size,
{
    let root = m.root();
    let sub = seen_below(w, d);
    crate::laws::law_drill_in_totals(m, w.dirs, w.files, d);
    crate::laws::law_drill_in_children(m, w.dirs, w.files, d);
    assert forall|p: Seq<Part>| m.has_dir(p) && p != root implies #[trigger] w.dirs.contains(p) by {
        assert(crate::model::walked_dir(root, w.dirs, w.files, p));
    }
    crate::laws::law_drill_in_dirs(m, w.dirs, w.files, d);
    crate::laws::lemma_dir_extends(m, w.dirs, w.files, d);
    crate::laws::law_drill_in_skipped(m, d);
    let by_size = |c: DirRec| c.size as int;
    let listed = crate::sort::views(r.children@);
    let found = crate::sort::views(fresh.children@);
    assert(crate::report::is_top(m.children(d), listed, n, crate::report::larger_dir()));
    let mine = choose|sorted: Seq<DirRec>| #[trigger]
        crate::sort::is_stable_sort(m.children(d), sorted, crate::report::larger_dir()) && listed
            == crate::report::at_most(sorted, n);
    let all = choose|all: Seq<DirRec>| #[trigger]
        crate::scan::is_folder_list(d, sub.dirs, sub.files, all) && crate::report::is_top(
            all,
            found,
            n,
            crate::report::larger_dir(),
        );
    let theirs = choose|sorted: Seq<DirRec>| #[trigger]
        crate::sort::is_stable_sort(all, sorted, crate::report::larger_dir()) && found
            == crate::report::at_most(sorted, n);
    lemma_same_folder_lists(d, sub.dirs, sub.files, m.children(d), all);
    assert forall|i: int, j: int| 0 <= i < j < mine.len() implies by_size(#[trigger] mine[i])
        >= by_size(#[trigger] mine[j]) by {
        assert(crate::report::larger_dir()(mine[i], mine[j]));
    }
    assert forall|i: int, j: int| 0 <= i < j < theirs.len() implies by_size(#[trigger] theirs[i])
        >= by_size(#[trigger] theirs[j]) by {
        assert(crate::report::larger_dir()(theirs[i], theirs[j]));
    }
    lemma_same_order(mine, theirs, by_size);
    assert(listed.len() == r.children@.len() && found.len() == fresh.children@.len());
    assert forall|i: int| 0 <= i < r.children@.len() implies (#[trigger] r.children@[i]).size
        == fresh.children@[i].size by {
        assert(by_size(mine[i]) == by_size(theirs[i]));
        assert(listed[i] == mine[i] && found[i] == theirs[i]);
    }
    lemma_same_top_files(m.all_files(d), sub.files, n, r, fresh);
}

proof fn lemma_same_top_files(
    mine: Seq<FileRec>,
    theirs: Seq<FileRec>,
    n: nat,
    r: ScanReport,
    fresh: ScanReport,
)
    requires
        mine.to_multiset() == theirs.to_multiset(),
        crate::report::is_largest(mine, crate::sort::views(r.top_files@), n),
        crate::report::is_top(
            theirs,
            crate::sort::views(fresh.top_files@),
            n,
            crate::report::larger_file(),
        ),
    ensures
        r.top_files@.len() == fresh.top_files@.len(),
        forall|i: int|
            0 <= i < r.top_files@.len() ==> (#[trigger] r.top_files@[i]).size
                == fresh.top_files@[i].size,
{
    let by_size = |f: FileRec| f.size as int;
    let listed = crate::sort::views(r.top_files@);
    let found = crate::sort::views(fresh.top_files@);
    let a = choose|sorted: Seq<FileRec>| #[trigger]
        crate::sort::sorted_by(sorted, crate::report::larger_file()) && sorted.to_multiset()
            == mine.to_multiset() && listed == crate::report::at_most(sorted, n);
    let b = choose|sorted: Seq<FileRec>| #[trigger]
        crate::sort::is_stable_sort(theirs, sorted, crate::report::larger_file()) && found
            == crate::report::at_most(sorted, n);
    assert forall|i: int, j: int| 0 <= i < j < a.len() implies by_size(#[trigger] a[i]) >= by_size(
        #[trigger] a[j],
    ) by {
        assert(crate::report::larger_file()(a[i], a[j]));
    }
    assert forall|i: int, j: int| 0 <= i < j < b.len() implies by_size(#[trigger] b[i]) >= by_size(
        #[trigger] b[j],
    ) by {
        assert(crate::report::larger_file()(b[i], b[j]));
    }
    lemma_same_order(a, b, by_size);
    assert(listed.len() == r.top_files@.len() && found.len() == fresh.top_files@.len());
    assert forall|i: int| 0 <= i < r.top_files@.len() implies (#[trigger] r.top_files@[i]).size
        == fresh.top_files@[i].size by {
        assert(by_size(a[i]) == by_size(b[i]));
        assert(listed[i] == a[i] && found[i] == b[i]);
    }
}

} // verus!

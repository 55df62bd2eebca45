//! What a scan and a tree report, in terms of the files and folders that were walked.
use vstd::prelude::*;

use crate::model::TreeModel;
use crate::path::Part;
use crate::report::{DirRec, FileRec, ScanReport};
use crate::walk::{EntryRec, WalkRec};

verus! {

/// The bytes of a list of files are the sum of their sizes.
pub proof fn law_bytes_are_summed_up(files: Seq<FileRec>)
    ensures
        crate::report::files_size(files) == files.fold_left(
            0int,
            |sum: int, f: FileRec| sum + f.size,
        ),
    decreases files.len(),
{
    if files.len() > 0 {
        law_bytes_are_summed_up(files.drop_last());
    }
}

/// A scan counts every file and directory of the walk, sums up the sizes of the files, and
/// tells apart those that sit directly in the root.
pub proof fn law_a_scan_counts_everything(
    root: Seq<Part>,
    n: nat,
    w: WalkRec,
    disk: (u64, u64),
    r: ScanReport,
)
    requires
        crate::scan::is_scan(root, n, w, disk, r),
    ensures
        r.root@ == root,
        r.total_size == w.files.fold_left(0int, |sum: int, f: FileRec| sum + f.size),
        r.total_files == w.files.len(),
        r.total_dirs == w.dirs.len(),
        r.skipped == w.skipped.len(),
        r.root_files_size == w.files.filter(
            |f: FileRec| root.is_prefix_of(f.path) && f.path.len() == root.len() + 1,
        ).fold_left(0int, |sum: int, f: FileRec| sum + f.size),
        r.root_files_count == w.files.filter(
            |f: FileRec| root.is_prefix_of(f.path) && f.path.len() == root.len() + 1,
        ).len(),
        r.disk_total == disk.0,
        r.disk_free == disk.1,
{
    let here = |f: FileRec| root.is_prefix_of(f.path) && f.path.len() == root.len() + 1;
    law_bytes_are_summed_up(w.files);
    law_bytes_are_summed_up(w.files.filter(here));
    assert(crate::scan::directly_in(root) =~= here);
}

/// A scan lists as many of the biggest files as asked for, the biggest first: no file that is
/// not listed is bigger than one that is.
pub proof fn law_the_biggest_files_come_first(
    root: Seq<Part>,
    n: nat,
    w: WalkRec,
    disk: (u64, u64),
    r: ScanReport,
)
    requires
        crate::scan::is_scan(root, n, w, disk, r),
    ensures
        r.top_files@.len() == if w.files.len() < n {
            w.files.len()
        } else {
            n
        },
        forall|i: int, j: int|
            0 <= i < j < r.top_files@.len() ==> (#[trigger] r.top_files@[i]).size >= (
            #[trigger] r.top_files@[j]).size,
        forall|i: int| 0 <= i < r.top_files@.len() ==> w.files.contains((#[trigger] r.top_files@[i])@),
        forall|v: FileRec| #[trigger]
            crate::sort::views(r.top_files@).to_multiset().count(v) <= w.files.to_multiset().count(v),
        forall|v: FileRec, i: int|
            #[trigger] w.files.contains(v) && !crate::sort::views(r.top_files@).contains(v) && 0 <= i
                < r.top_files@.len() ==> (#[trigger] r.top_files@[i]).size >= v.size,
{
    lemma_top_files(w.files, n, r);
}

/// Files of one size are listed in the order in which they were met, the first of them first.
pub proof fn law_files_of_one_size_stay_in_order(
    root: Seq<Part>,
    n: nat,
    w: WalkRec,
    disk: (u64, u64),
    r: ScanReport,
    size: u64,
)
    requires
        crate::scan::is_scan(root, n, w, disk, r),
    ensures
        crate::sort::views(r.top_files@).filter(|f: FileRec| f.size == size).is_prefix_of(
            w.files.filter(|f: FileRec| f.size == size),
        ),
{
    let le = crate::report::larger_file();
    let out = crate::sort::views(r.top_files@);
    let sorted = choose|sorted: Seq<FileRec>| #[trigger]
        crate::sort::is_stable_sort(w.files, sorted, le) && out == crate::report::at_most(
            sorted,
            n,
        );
    let x = FileRec { path: Seq::empty(), size, logical_size: 0 };
    let here = |f: FileRec| f.size == size;
    assert(crate::sort::tied(le, x) =~= here);
    assert(sorted.filter(crate::sort::tied(le, x)) == w.files.filter(crate::sort::tied(le, x)));
    let rest = sorted.skip(out.len() as int);
    assert(sorted =~= out + rest);
    Seq::filter_distributes_over_add(out, rest, here);
}

proof fn lemma_top_files(files: Seq<FileRec>, n: nat, r: ScanReport)
    requires
        exists|sorted: Seq<FileRec>| #[trigger]
            crate::sort::sorted_by(sorted, crate::report::larger_file()) && sorted.to_multiset()
                == files.to_multiset() && crate::sort::views(r.top_files@)
                == crate::report::at_most(sorted, n),
    ensures
        r.top_files@.len() == if files.len() < n {
            files.len()
        } else {
            n
        },
        forall|i: int, j: int|
            0 <= i < j < r.top_files@.len() ==> (#[trigger] r.top_files@[i]).size >= (
            #[trigger] r.top_files@[j]).size,
        forall|i: int| 0 <= i < r.top_files@.len() ==> files.contains((#[trigger] r.top_files@[i])@),
        forall|v: FileRec| #[trigger]
            crate::sort::views(r.top_files@).to_multiset().count(v) <= files.to_multiset().count(v),
        forall|v: FileRec, i: int|
            #[trigger] files.contains(v) && !crate::sort::views(r.top_files@).contains(v) && 0 <= i
                < r.top_files@.len() ==> (#[trigger] r.top_files@[i]).size >= v.size,
{
    let out = crate::sort::views(r.top_files@);
    let le = crate::report::larger_file();
    let sorted = choose|sorted: Seq<FileRec>| #[trigger]
        crate::sort::sorted_by(sorted, le) && sorted.to_multiset() == files.to_multiset() && out
            == crate::report::at_most(sorted, n);
    crate::order_laws::lemma_cut_off(files, sorted, out, n, le);
    assert(out.len() == r.top_files@.len());
    assert forall|i: int, j: int| 0 <= i < j < r.top_files@.len() implies (
    #[trigger] r.top_files@[i]).size >= (#[trigger] r.top_files@[j]).size by {
        assert(le(out[i], out[j]));
    }
    assert forall|i: int| 0 <= i < r.top_files@.len() implies files.contains(
        (#[trigger] r.top_files@[i])@,
    ) by {
        assert(out[i] == r.top_files@[i]@);
        assert(out.contains(out[i]));
    }
    assert forall|v: FileRec, i: int|
        #[trigger] files.contains(v) && !out.contains(v) && 0 <= i < r.top_files@.len() implies (
    #[trigger] r.top_files@[i]).size >= v.size by {
        assert(le(out[i], v));
    }
}

proof fn lemma_folder(root: Seq<Part>, f: FileRec, d: Seq<Part>)
    ensures
        crate::scan::in_folder(root, d)(f) == (d.len() == root.len() + 1 && root.is_prefix_of(d)
            && d.is_prefix_of(f.path) && f.path.len() > d.len()),
{
    let p = f.path;
    let n = root.len() as int;
    if p.len() >= n + 1 {
        assert(p.take(n) =~= p.take(n + 1).take(n));
        if d.len() == n + 1 && root.is_prefix_of(d) && d.is_prefix_of(p) {
            assert(d =~= p.take(n + 1));
            assert(root =~= d.take(n));
            assert(root =~= p.take(n));
        }
        if root.is_prefix_of(p) && p.take(n + 1) == d {
            assert(root =~= p.take(n));
            assert(d.is_prefix_of(p));
            assert(root =~= d.take(n));
        }
    }
}

/// The sub-folders that a scan lists are immediate ones, each listed once, with the bytes and
/// the number of the files that lie below them, the biggest first. A sub-folder that is not
/// listed is no bigger than any that is, and nothing is left out where there is room for it.
pub proof fn law_the_biggest_folders_come_first(
    root: Seq<Part>,
    n: nat,
    w: WalkRec,
    disk: (u64, u64),
    r: ScanReport,
    d: Seq<Part>,
)
    requires
        crate::scan::is_scan(root, n, w, disk, r),
        crate::report::files_size(w.files) <= u64::MAX,
        w.files.len() <= u64::MAX,
        d.len() == root.len() + 1,
        root.is_prefix_of(d),
        (exists|i: int| 0 <= i < w.dirs.len() && d.is_prefix_of(#[trigger] w.dirs[i])) || (exists|
            i: int,
        |
            0 <= i < w.files.len() && d.is_prefix_of((#[trigger] w.files[i]).path) && d.len()
                < w.files[i].path.len()),
    ensures
        r.children@.len() <= n,
        forall|i: int, j: int|
            0 <= i < j < r.children@.len() ==> (#[trigger] r.children@[i]).size >= (
            #[trigger] r.children@[j]).size && r.children@[i].path@ != r.children@[j].path@,
        forall|i: int|
            0 <= i < r.children@.len() ==> (#[trigger] r.children@[i]).path@.len() == root.len() + 1
                && root.is_prefix_of(r.children@[i].path@),
        ({
            let inside = w.files.filter(
                |f: FileRec| d.is_prefix_of(f.path) && d.len() < f.path.len(),
            );
            let bytes = inside.fold_left(0int, |sum: int, f: FileRec| sum + f.size);
            ||| exists|i: int|
                0 <= i < r.children@.len() && (#[trigger] r.children@[i]).path@ == d
                    && r.children@[i].size == bytes && r.children@[i].file_count == inside.len()
            ||| r.children@.len() == n && forall|i: int|
                0 <= i < r.children@.len() ==> (#[trigger] r.children@[i]).size >= bytes
                    && r.children@[i].path@ != d
        }),
{
    let all = choose|all: Seq<DirRec>| #[trigger]
        crate::scan::is_folder_list(root, w.dirs, w.files, all) && crate::report::is_top(
            all,
            crate::sort::views(r.children@),
            n,
            crate::report::larger_dir(),
        );
    lemma_top_folders(root, w.dirs, w.files, all, n, r, d);
}

proof fn lemma_top_folders(
    root: Seq<Part>,
    dirs: Seq<Seq<Part>>,
    files: Seq<FileRec>,
    all: Seq<DirRec>,
    n: nat,
    r: ScanReport,
    d: Seq<Part>,
)
    requires
        crate::scan::is_folder_list(root, dirs, files, all),
        crate::report::is_top(
            all,
            crate::sort::views(r.children@),
            n,
            crate::report::larger_dir(),
        ),
        crate::report::files_size(files) <= u64::MAX,
        files.len() <= u64::MAX,
        d.len() == root.len() + 1,
        root.is_prefix_of(d),
        (exists|i: int| 0 <= i < dirs.len() && d.is_prefix_of(#[trigger] dirs[i])) || (exists|
            i: int,
        |
            0 <= i < files.len() && d.is_prefix_of((#[trigger] files[i]).path) && d.len()
                < files[i].path.len()),
    ensures
        r.children@.len() <= n,
        forall|i: int, j: int|
            0 <= i < j < r.children@.len() ==> (#[trigger] r.children@[i]).size >= (
            #[trigger] r.children@[j]).size && r.children@[i].path@ != r.children@[j].path@,
        forall|i: int|
            0 <= i < r.children@.len() ==> (#[trigger] r.children@[i]).path@.len() == root.len() + 1
                && root.is_prefix_of(r.children@[i].path@),
        ({
            let inside = files.filter(
                |f: FileRec| d.is_prefix_of(f.path) && d.len() < f.path.len(),
            );
            let bytes = inside.fold_left(0int, |sum: int, f: FileRec| sum + f.size);
            ||| exists|i: int|
                0 <= i < r.children@.len() && (#[trigger] r.children@[i]).path@ == d
                    && r.children@[i].size == bytes && r.children@[i].file_count == inside.len()
            ||| r.children@.len() == n && forall|i: int|
                0 <= i < r.children@.len() ==> (#[trigger] r.children@[i]).size >= bytes
                    && r.children@[i].path@ != d
        }),
{
    let out = crate::sort::views(r.children@);
    let le = crate::report::larger_dir();
    let sorted = choose|sorted: Seq<DirRec>| #[trigger]
        crate::sort::is_stable_sort(all, sorted, le) && out == crate::report::at_most(sorted, n);
    crate::order_laws::lemma_cut_off(all, sorted, out, n, le);
    assert(out.len() == r.children@.len());
    lemma_each_once(all, out);
    assert forall|i: int, j: int| 0 <= i < j < r.children@.len() implies (
    #[trigger] r.children@[i]).size >= (#[trigger] r.children@[j]).size && r.children@[i].path@
        != r.children@[j].path@ by {
        assert(le(out[i], out[j]));
        assert(out[i].path != out[j].path);
    }
    assert forall|i: int| 0 <= i < r.children@.len() implies (#[trigger] r.children@[i]).path@.len()
        == root.len() + 1 && root.is_prefix_of(r.children@[i].path@) by {
        assert(out.contains(out[i]));
        assert(all.contains(out[i]));
        let k = choose|k: int| 0 <= k < all.len() && all[k] == out[i];
        lemma_listed_folder(root, dirs, files, all, k);
    }
    // `d` is in the full list.
    let inside_of = |f: FileRec| d.is_prefix_of(f.path) && d.len() < f.path.len();
    let inside = files.filter(inside_of);
    assert(crate::scan::in_folder(root, d) =~= inside_of) by {
        assert forall|f: FileRec| #[trigger] crate::scan::in_folder(root, d)(f) == inside_of(f) by {
            lemma_folder(root, f, d);
        }
    }
    law_bytes_are_summed_up(inside);
    crate::report::lemma_files_size_filter(files, inside_of);
    files.lemma_filter_len(inside_of);
    assert(crate::scan::lists(all, d)) by {
        if exists|i: int| 0 <= i < dirs.len() && d.is_prefix_of(#[trigger] dirs[i]) {
            let i = choose|i: int| 0 <= i < dirs.len() && d.is_prefix_of(#[trigger] dirs[i]);
            let p = dirs[i];
            assert(d =~= p.take(root.len() as int + 1));
            assert(root =~= d.take(root.len() as int));
            assert(root =~= p.take(root.len() as int));
            assert(crate::scan::folder_above(root, p, d));
            assert(crate::scan::folder_walked(root, dirs, d));
        } else {
            let i = choose|i: int|
                0 <= i < files.len() && d.is_prefix_of((#[trigger] files[i]).path) && d.len()
                    < files[i].path.len();
            lemma_folder(root, files[i], d);
            assert(crate::scan::in_folder(root, d)(files[i]));
        }
    }
    let k = choose|k: int| 0 <= k < all.len() && (#[trigger] all[k]).path == d;
    let rec = all[k];
    assert(rec == crate::scan::folder_rec(root, files, d));
    assert(all.contains(rec));
    if out.contains(rec) {
        let i = choose|i: int| 0 <= i < out.len() && out[i] == rec;
        assert(r.children@[i].path@ == d);
    } else {
        assert forall|i: int| 0 <= i < r.children@.len() implies (#[trigger] r.children@[i]).size
            >= rec.size && r.children@[i].path@ != d by {
            assert(le(out[i], rec));
            assert(out[i] == r.children@[i]@);
            assert(out.contains(out[i]));
            assert(all.contains(out[i]));
            let q = choose|q: int| 0 <= q < all.len() && all[q] == out[i];
            if out[i].path == d {
                if q < k {
                    assert(all[q].path != all[k].path);
                } else if k < q {
                    assert(all[k].path != all[q].path);
                }
            }
        }
        if out.len() < n {
            // Then nothing was cut off.
            assert(out == sorted);
            lemma_same_values(all, sorted, rec);
        }
    }
}

proof fn lemma_same_values<V>(a: Seq<V>, b: Seq<V>, v: V)
    requires
        a.to_multiset() == b.to_multiset(),
        a.contains(v),
    ensures
        b.contains(v),
{
    broadcast use vstd::seq_lib::group_to_multiset_ensures;

    assert(a.to_multiset().count(v) > 0);
    assert(b.to_multiset().count(v) > 0);
}

/// Records of different folders stay different, whatever part of them is kept.
proof fn lemma_each_once(all: Seq<DirRec>, out: Seq<DirRec>)
    requires
        forall|i: int, j: int|
            0 <= i < j < all.len() ==> (#[trigger] all[i]).path != (#[trigger] all[j]).path,
        forall|v: DirRec| #[trigger] out.to_multiset().count(v) <= all.to_multiset().count(v),
        forall|v: DirRec| out.contains(v) ==> #[trigger] all.contains(v),
    ensures
        forall|i: int, j: int|
            0 <= i < j < out.len() ==> (#[trigger] out[i]).path != (#[trigger] out[j]).path,
{
    broadcast use vstd::seq_lib::group_to_multiset_ensures;

    assert(all.no_duplicates()) by {
        assert forall|i: int, j: int| 0 <= i < all.len() && 0 <= j < all.len() && i != j implies all[i]
            != all[j] by {
            if i < j {
                assert(all[i].path != all[j].path);
            } else {
                assert(all[j].path != all[i].path);
            }
        }
    }
    all.lemma_multiset_has_no_duplicates();
    assert forall|i: int, j: int| 0 <= i < j < out.len() implies (#[trigger] out[i]).path != (
    #[trigger] out[j]).path by {
        if out[i].path == out[j].path {
            assert(out.contains(out[i]) && out.contains(out[j]));
            assert(all.contains(out[i]) && all.contains(out[j]));
            let a = choose|a: int| 0 <= a < all.len() && all[a] == out[i];
            let b = choose|b: int| 0 <= b < all.len() && all[b] == out[j];
            if a < b {
                assert(all[a].path != all[b].path);
            } else if b < a {
                assert(all[b].path != all[a].path);
            }
            // The same record twice.
            let v = out[i];
            let one = out.take(j);
            let two = out.skip(j);
            assert(out =~= one + two);
            vstd::seq_lib::lemma_multiset_commutative(one, two);
            assert(one[i] == v && two[0] == v);
            assert(one.contains(v) && two.contains(v));
            assert(one.to_multiset().count(v) > 0 && two.to_multiset().count(v) > 0);
            assert(out.to_multiset().count(v) >= 2);
            assert(all.to_multiset().contains(v));
        }
    }
}

proof fn lemma_listed_folder(
    root: Seq<Part>,
    dirs: Seq<Seq<Part>>,
    files: Seq<FileRec>,
    all: Seq<DirRec>,
    k: int,
)
    requires
        crate::scan::is_folder_list(root, dirs, files, all),
        0 <= k < all.len(),
    ensures
        all[k].path.len() == root.len() + 1,
        root.is_prefix_of(all[k].path),
{
    let d = all[k].path;
    assert(crate::scan::lists(all, d));
    if crate::scan::folder_walked(root, dirs, d) {
        let i = choose|i: int| 0 <= i < dirs.len() && crate::scan::folder_above(
            root,
            #[trigger] dirs[i],
            d,
        );
        assert(root =~= d.take(root.len() as int));
    } else {
        let i = choose|i: int|
            0 <= i < files.len() && crate::scan::in_folder(root, d)(#[trigger] files[i]);
        lemma_folder(root, files[i], d);
    }
}

/// What a walk notes of one more entry: a file whose size could be read, with that size; a
/// directory other than the root; and of what could not be read the directory that it is in.
pub proof fn law_a_walk_notes_every_entry(w: WalkRec, e: EntryRec)
    ensures
        w.seen(e).files == if e is File && e->File_size is Some {
            w.files.push(
                FileRec {
                    path: e->File_path,
                    size: e->File_size->0,
                    logical_size: e->File_size->0,
                },
            )
        } else {
            w.files
        },
        w.seen(e).dirs == if e is Dir && e->depth > 0 {
            w.dirs.push(e->Dir_path)
        } else {
            w.dirs
        },
        w.seen(e).skipped == if e is Unreadable {
            w.skipped.push(e->dir)
        } else if e is File && e->File_size is None {
            w.skipped.push(
                if e->File_path.len() == 0 || e->File_path.last() is RootDir
                    || e->File_path.last() is Prefix {
                    e->File_path
                } else {
                    e->File_path.drop_last()
                },
            )
        } else {
            w.skipped
        },
{
}

/// A tree has the root, every folder that was walked or that a file was found in, and every
/// folder between these and the root; and no other.
pub proof fn law_a_tree_has_what_was_walked(
    m: TreeModel,
    dirs: Seq<Seq<Part>>,
    files: Seq<FileRec>,
    p: Seq<Part>,
)
    requires
        crate::model::is_tree_of(m, m.root(), dirs, files),
        forall|i: int| 0 <= i < dirs.len() ==> crate::laws::extends(m.root(), #[trigger] dirs[i]),
        forall|i: int|
            0 <= i < files.len() ==> crate::laws::extends(m.root(), (#[trigger] files[i]).path),
    ensures
        m.has_dir(p) <==> p == m.root() || (p.len() > m.root().len() && ((exists|i: int|
            0 <= i < dirs.len() && p.is_prefix_of(#[trigger] dirs[i])) || (exists|i: int|
            0 <= i < files.len() && p.is_prefix_of((#[trigger] files[i]).path) && p.len()
                < files[i].path.len()))),
{
    let root = m.root();
    assert(m.has_dir(p) <==> crate::model::walked_dir(root, dirs, files, p));
    assert forall|i: int| 0 <= i < dirs.len() implies crate::model::within(root, #[trigger] dirs[i], p)
        == (p.is_prefix_of(dirs[i]) && root.len() <= p.len()) by {
        crate::laws::lemma_within_prefix(root, dirs[i], p);
    }
    assert forall|i: int| 0 <= i < files.len() implies crate::model::within(
        root,
        crate::model::up(root, (#[trigger] files[i]).path),
        p,
    ) == (p.is_prefix_of(files[i].path) && p.len() < files[i].path.len() && root.len() <= p.len()) by {
        let f = files[i].path;
        let q = f.drop_last();
        assert(crate::laws::extends(root, f));
        assert(f[f.len() - 1] == f.last());
        assert(crate::model::up(root, f) == q);
        assert(root =~= f.take(root.len() as int));
        if q.len() == root.len() {
            assert(q =~= root);
        } else {
            assert(root =~= q.take(root.len() as int));
            assert forall|k: int| root.len() <= k < q.len() implies !(#[trigger] q[k] is RootDir)
                && !(q[k] is Prefix) by {
                assert(q[k] == f[k]);
            }
            assert(crate::laws::extends(root, q));
        }
        crate::laws::lemma_within_prefix(root, q, p);
        if p.len() <= q.len() {
            assert(q.take(p.len() as int) =~= f.take(p.len() as int));
        }
    }
    // A path as long as the root that one of them begins with is the root.
    assert forall|i: int| 0 <= i < dirs.len() && p.is_prefix_of(#[trigger] dirs[i]) && p.len()
        == root.len() implies p == root by {
        assert(crate::laws::extends(root, dirs[i]));
        assert(p =~= dirs[i].take(root.len() as int));
        assert(root =~= dirs[i].take(root.len() as int));
    }
    assert forall|i: int| 0 <= i < files.len() && p.is_prefix_of((#[trigger] files[i]).path) && p.len()
        == root.len() implies p == root by {
        assert(crate::laws::extends(root, files[i].path));
        assert(p =~= files[i].path.take(root.len() as int));
        assert(root =~= files[i].path.take(root.len() as int));
    }
}

/// The report that a tree gives of one of its folders counts the files that lie below the
/// folder, sums up their sizes, and lists the biggest of them first.
pub proof fn law_a_tree_reports_what_lies_below(
    m: TreeModel,
    dirs: Seq<Seq<Part>>,
    files: Seq<FileRec>,
    d: Seq<Part>,
    n: nat,
    r: ScanReport,
)
    requires
        crate::model::is_tree_of(m, m.root(), dirs, files),
        forall|i: int| 0 <= i < dirs.len() ==> crate::laws::extends(m.root(), #[trigger] dirs[i]),
        forall|i: int|
            0 <= i < files.len() ==> crate::laws::extends(m.root(), (#[trigger] files[i]).path),
        m.has_dir(d),
        m.is_report(d, n, r),
    ensures
        ({
            let inside = files.filter(
                |f: FileRec| d.is_prefix_of(f.path) && d.len() < f.path.len(),
            );
            let here = files.filter(
                |f: FileRec| d.is_prefix_of(f.path) && f.path.len() == d.len() + 1,
            );
            let listed = crate::sort::views(r.top_files@);
            &&& r.root@ == d
            &&& r.total_size == inside.fold_left(0int, |sum: int, f: FileRec| sum + f.size)
            &&& r.total_files == inside.len()
            &&& r.root_files_size == here.fold_left(0int, |sum: int, f: FileRec| sum + f.size)
            &&& r.root_files_count == here.len()
            &&& r.top_files@.len() == if inside.len() < n {
                inside.len()
            } else {
                n
            }
            &&& forall|i: int, j: int|
                0 <= i < j < r.top_files@.len() ==> (#[trigger] r.top_files@[i]).size >= (
                #[trigger] r.top_files@[j]).size
            &&& forall|v: FileRec| #[trigger]
                listed.to_multiset().count(v) <= inside.to_multiset().count(v)
            &&& forall|v: FileRec, i: int|
                #[trigger] inside.contains(v) && !listed.contains(v) && 0 <= i < r.top_files@.len()
                    ==> (#[trigger] r.top_files@[i]).size >= v.size
        }),
{
    let inside_of = |f: FileRec| d.is_prefix_of(f.path) && d.len() < f.path.len();
    let here_in = |f: FileRec| d.is_prefix_of(f.path) && f.path.len() == d.len() + 1;
    let inside = files.filter(inside_of);
    crate::laws::law_drill_in_totals(m, dirs, files, d);
    assert(crate::laws::below(d) =~= inside_of);
    assert(crate::scan::directly_in(d) =~= here_in);
    crate::sort::lemma_filter_twice(files, inside_of, here_in, here_in);
    law_bytes_are_summed_up(inside);
    law_bytes_are_summed_up(files.filter(here_in));
    let sorted = choose|sorted: Seq<FileRec>| #[trigger]
        crate::sort::sorted_by(sorted, crate::report::larger_file()) && sorted.to_multiset()
            == m.all_files(d).to_multiset() && crate::sort::views(r.top_files@)
            == crate::report::at_most(sorted, n);
    assert(sorted.to_multiset() == inside.to_multiset());
    lemma_top_files(inside, n, r);
}

/// The sub-folders that a tree lists for one of its folders are the biggest ones first, each
/// with the bytes and the number of the files below it, and nothing is left out where there is
/// room for it.
pub proof fn law_a_tree_lists_the_biggest_folders(
    m: TreeModel,
    dirs: Seq<Seq<Part>>,
    files: Seq<FileRec>,
    d: Seq<Part>,
    n: nat,
    r: ScanReport,
    c: Seq<Part>,
)
    requires
        crate::model::is_tree_of(m, m.root(), dirs, files),
        forall|i: int| 0 <= i < dirs.len() ==> crate::laws::extends(m.root(), #[trigger] dirs[i]),
        forall|i: int|
            0 <= i < files.len() ==> crate::laws::extends(m.root(), (#[trigger] files[i]).path),
        crate::report::files_size(files) <= u64::MAX,
        files.len() <= u64::MAX,
        m.has_dir(d),
        m.is_report(d, n, r),
        c.len() == d.len() + 1,
        d.is_prefix_of(c),
        (exists|i: int| 0 <= i < dirs.len() && c.is_prefix_of(#[trigger] dirs[i])) || (exists|
            i: int,
        |
            0 <= i < files.len() && c.is_prefix_of((#[trigger] files[i]).path) && c.len()
                < files[i].path.len()),
    ensures
        r.children@.len() <= n,
        forall|i: int, j: int|
            0 <= i < j < r.children@.len() ==> (#[trigger] r.children@[i]).size >= (
            #[trigger] r.children@[j]).size && r.children@[i].path@ != r.children@[j].path@,
        forall|i: int|
            0 <= i < r.children@.len() ==> (#[trigger] r.children@[i]).path@.len() == d.len() + 1
                && d.is_prefix_of(r.children@[i].path@),
        ({
            let inside = files.filter(
                |f: FileRec| c.is_prefix_of(f.path) && c.len() < f.path.len(),
            );
            let bytes = inside.fold_left(0int, |sum: int, f: FileRec| sum + f.size);
            ||| exists|i: int|
                0 <= i < r.children@.len() && (#[trigger] r.children@[i]).path@ == c
                    && r.children@[i].size == bytes && r.children@[i].file_count == inside.len()
            ||| r.children@.len() == n && forall|i: int|
                0 <= i < r.children@.len() ==> (#[trigger] r.children@[i]).size >= bytes
                    && r.children@[i].path@ != c
        }),
{
    let below_d = crate::laws::below(d);
    let dirs_d = dirs.filter(crate::laws::dir_below(d));
    let files_d = files.filter(below_d);
    crate::laws::law_drill_in_children(m, dirs, files, d);
    crate::report::lemma_files_size_filter(files, below_d);
    files.lemma_filter_len(below_d);
    assert(d =~= c.take(d.len() as int));
    if exists|i: int| 0 <= i < dirs.len() && c.is_prefix_of(#[trigger] dirs[i]) {
        let i = choose|i: int| 0 <= i < dirs.len() && c.is_prefix_of(#[trigger] dirs[i]);
        assert(c =~= dirs[i].take(c.len() as int));
        assert(d =~= dirs[i].take(d.len() as int));
        assert(crate::laws::dir_below(d)(dirs[i]));
        let k = crate::sort::lemma_kept_at(dirs, crate::laws::dir_below(d), i);
        assert(c.is_prefix_of(dirs_d[k]));
    } else {
        let i = choose|i: int|
            0 <= i < files.len() && c.is_prefix_of((#[trigger] files[i]).path) && c.len()
                < files[i].path.len();
        assert(c =~= files[i].path.take(c.len() as int));
        assert(d =~= files[i].path.take(d.len() as int));
        assert(below_d(files[i]));
        let k = crate::sort::lemma_kept_at(files, below_d, i);
        assert(c.is_prefix_of(files_d[k].path));
    }
    lemma_top_folders(d, dirs_d, files_d, m.children(d), n, r, c);
    let inside_of = |f: FileRec| c.is_prefix_of(f.path) && c.len() < f.path.len();
    assert forall|i: int| 0 <= i < files.len() implies inside_of(#[trigger] files[i]) == (below_d(
        files[i],
    ) && inside_of(files[i])) by {
        if inside_of(files[i]) {
            assert(c =~= files[i].path.take(c.len() as int));
            assert(d =~= files[i].path.take(d.len() as int));
        }
    }
    crate::sort::lemma_filter_twice(files, below_d, inside_of, inside_of);
}

/// A tree counts the folders below one of its folders, and what could not be read at or below
/// it, where the walk listed every folder once.
pub proof fn law_a_tree_counts_folders_and_what_was_skipped(
    m: TreeModel,
    dirs: Seq<Seq<Part>>,
    files: Seq<FileRec>,
    d: Seq<Part>,
    n: nat,
    r: ScanReport,
)
    requires
        crate::model::is_tree_of(m, m.root(), dirs, files),
        forall|i: int| 0 <= i < dirs.len() ==> crate::laws::extends(m.root(), #[trigger] dirs[i]),
        forall|i: int|
            0 <= i < files.len() ==> crate::laws::extends(m.root(), (#[trigger] files[i]).path),
        forall|i: int|
            0 <= i < m.skipped.len() ==> #[trigger] m.skipped[i] == m.root()
                || crate::laws::extends(m.root(), m.skipped[i]),
        dirs.no_duplicates(),
        forall|p: Seq<Part>| m.has_dir(p) && p != m.root() ==> #[trigger] dirs.contains(p),
        m.has_dir(d),
        m.is_report(d, n, r),
    ensures
        r.total_dirs == dirs.filter(
            |p: Seq<Part>| d.is_prefix_of(p) && d.len() < p.len(),
        ).len(),
        r.skipped == m.skipped.filter(|q: Seq<Part>| d.is_prefix_of(q)).len(),
        r.disk_total == m.disk_total,
        r.disk_free == m.disk_free,
        r.cancelled == m.cancelled,
{
    crate::laws::law_drill_in_dirs(m, dirs, files, d);
    crate::laws::lemma_dir_extends(m, dirs, files, d);
    crate::laws::law_drill_in_skipped(m, d);
    let under = |p: Seq<Part>| d.is_prefix_of(p) && d.len() < p.len();
    assert(crate::laws::dir_below(d) =~= under);
}

/// Taking a folder out of a tree takes what it counted for, and itself, off every folder above
/// it.
pub proof fn law_a_removed_folder_no_longer_counts(
    m: TreeModel,
    p: Seq<Part>,
    d: Seq<Part>,
    before: ScanReport,
    gone: ScanReport,
    after: ScanReport,
)
    requires
        m.wf(),
        m.has_dir(p),
        m.has_dir(d),
        crate::laws::extends(m.root(), p),
        m.root().len() <= d.len() < p.len(),
        d.is_prefix_of(p),
        exists|n: nat| m.is_report(d, n, before),
        exists|n: nat| m.is_report(p, n, gone),
        exists|n: nat| m.without(p).is_report(d, n, after),
    ensures
        before.total_size == after.total_size + gone.total_size,
        before.total_files == after.total_files + gone.total_files,
        before.total_dirs == after.total_dirs + gone.total_dirs + 1,
{
    let root = m.root();
    crate::laws::lemma_within_prefix(root, p, d);
    if crate::model::within(root, d, p) {
        crate::model::lemma_within_antisym(root, d, p);
    }
    crate::model::law_remove_dir(m, p, d, crate::model::own_size());
    crate::model::law_remove_dir(m, p, d, crate::model::own_files());
    crate::model::law_remove_dir(m, p, d, crate::model::own_dirs());
}

/// Taking a file out of a tree takes it and its bytes off every folder above it.
pub proof fn law_a_removed_file_no_longer_counts(
    m: TreeModel,
    p: Seq<Part>,
    d: Seq<Part>,
    before: ScanReport,
    after: ScanReport,
)
    requires
        m.wf(),
        !m.has_dir(p),
        m.removable(p),
        m.has_dir(d),
        crate::laws::extends(m.root(), p),
        m.root().len() <= d.len() < p.len(),
        d.is_prefix_of(p),
        exists|n: nat| m.is_report(d, n, before),
        exists|n: nat| m.without(p).is_report(d, n, after),
    ensures
        before.total_files == after.total_files + 1,
        before.total_dirs == after.total_dirs,
        exists|f: FileRec| #[trigger]
            m.files_of(p.drop_last()).contains(f) && f.path == p && before.total_size
                == after.total_size + f.size,
{
    let root = m.root();
    let q = p.drop_last();
    assert(p[p.len() - 1] == p.last());
    assert(crate::path::parent_of(p) == Some(q));
    crate::model::law_remove_file(m, q, p, d);
    crate::laws::lemma_within_prefix(root, p, d);
    assert(crate::model::up(root, p) == q);
    assert(root =~= p.take(root.len() as int));
    assert(p != d);
    assert(p != root);
    assert(crate::model::within(root, q, d));
    let files = m.files_of(q);
    crate::model::lemma_first_file(files, p);
    let f = files[crate::model::first_file(files, p)];
    assert(files.contains(f));
}

/// What can be taken out of the tree of a walk: every folder but the root, and every file that
/// was walked.
pub proof fn law_what_can_be_removed(
    m: TreeModel,
    dirs: Seq<Seq<Part>>,
    files: Seq<FileRec>,
    p: Seq<Part>,
)
    requires
        crate::model::is_tree_of(m, m.root(), dirs, files),
        forall|i: int| 0 <= i < dirs.len() ==> crate::laws::extends(m.root(), #[trigger] dirs[i]),
        forall|i: int|
            0 <= i < files.len() ==> crate::laws::extends(m.root(), (#[trigger] files[i]).path),
    ensures
        m.has_dir(p) ==> m.removable(p) == (p != m.root()),
        !m.has_dir(p) ==> (m.removable(p) <==> exists|i: int|
            0 <= i < files.len() && (#[trigger] files[i]).path == p),
{
    let root = m.root();
    if !m.has_dir(p) {
        if m.removable(p) {
            let q = crate::path::parent_of(p)->0;
            let k = choose|k: int| 0 <= k < m.dirs.len() && (#[trigger] m.dirs[k]).path == q;
            let held = crate::model::held_by(root, m.dirs[k].path);
            let own = m.files_of(q);
            assert(own == m.dirs[k].files);
            let a = choose|a: int| 0 <= a < own.len() && (#[trigger] own[a]).path == p;
            assert(m.dirs[k].files == files.filter(held));
            let i = crate::sort::lemma_kept_from(files, held, a);
            assert(files[i].path == p);
        }
        if exists|i: int| 0 <= i < files.len() && (#[trigger] files[i]).path == p {
            let i = choose|i: int| 0 <= i < files.len() && (#[trigger] files[i]).path == p;
            let q = p.drop_last();
            assert(crate::laws::extends(root, p));
            assert(p[p.len() - 1] == p.last());
            assert(crate::path::parent_of(p) == Some(q));
            law_a_tree_has_what_was_walked(m, dirs, files, q);
            assert(q =~= p.take(q.len() as int));
            assert(root =~= p.take(root.len() as int));
            if q.len() == root.len() {
                assert(q =~= root);
            }
            assert(m.has_dir(q));
            let k = choose|k: int| 0 <= k < m.dirs.len() && (#[trigger] m.dirs[k]).path == q;
            let held = crate::model::held_by(root, m.dirs[k].path);
            assert(held(files[i]));
            let a = crate::sort::lemma_kept_at(files, held, i);
            assert(m.dirs[k].files == files.filter(held));
            assert(m.files_of(q) == m.dirs[k].files);
            assert(m.files_of(q)[a].path == p);
        }
    }
}

/// A list of all folders of a tree is in path order, has every folder but the root once, and
/// shows what the folder's own report shows.
pub proof fn law_every_folder_is_listed_once(
    m: TreeModel,
    out: Seq<DirRec>,
    d: Seq<Part>,
    n: nat,
    r: ScanReport,
)
    requires
        m.wf(),
        crate::sort::sorted_by(out, crate::report::earlier_dir()),
        out.to_multiset() == m.dir_recs(m.dirs.drop_first()).to_multiset(),
        m.has_dir(d),
        d != m.root(),
        m.is_report(d, n, r),
    ensures
        out.contains(DirRec { path: d, size: r.total_size, file_count: r.total_files }),
        out.len() == m.dirs.len() - 1,
        forall|i: int, j: int|
            0 <= i < j < out.len() ==> crate::path::path_le(
                (#[trigger] out[i]).path,
                (#[trigger] out[j]).path,
            ) && out[i].path != out[j].path,
{
    broadcast use vstd::seq_lib::group_to_multiset_ensures;

    let rest = m.dirs.drop_first();
    let recs = m.dir_recs(rest);
    assert(out.len() == out.to_multiset().len());
    assert(recs.len() == recs.to_multiset().len());
    assert forall|i: int, j: int| 0 <= i < j < recs.len() implies (#[trigger] recs[i]).path != (
    #[trigger] recs[j]).path by {
        assert(rest[i] == m.dirs[i + 1] && rest[j] == m.dirs[j + 1]);
        assert(m.dirs[i + 1].path != m.dirs[j + 1].path);
    }
    assert forall|v: DirRec| out.contains(v) implies #[trigger] recs.contains(v) by {
        lemma_same_values(out, recs, v);
    }
    lemma_each_once(recs, out);
    assert forall|i: int, j: int| 0 <= i < j < out.len() implies crate::path::path_le(
        (#[trigger] out[i]).path,
        (#[trigger] out[j]).path,
    ) && out[i].path != out[j].path by {
        assert(crate::report::earlier_dir()(out[i], out[j]));
    }
    let k = choose|k: int| 0 <= k < m.dirs.len() && (#[trigger] m.dirs[k]).path == d;
    assert(k > 0);
    assert(rest[k - 1] == m.dirs[k]);
    assert(recs[k - 1] == m.dir_rec(d));
    assert(recs.contains(m.dir_rec(d)));
    lemma_same_values(recs, out, m.dir_rec(d));
}

/// Taking a file out of a tree takes one record of it out of its folder, the first where there
/// are several, and leaves the other files and folders as they were.
pub proof fn law_the_first_record_of_a_file_is_removed(
    m: TreeModel,
    folder: int,
    k: int,
    i: int,
)
    requires
        m.wf(),
        0 <= folder < m.dirs.len(),
        0 <= k < m.dirs[folder].files.len(),
        ({
            let p = m.dirs[folder].files[k].path;
            &&& crate::path::parent_of(p) == Some(m.dirs[folder].path)
            &&& !m.has_dir(p)
            &&& forall|j: int| 0 <= j < k ==> (#[trigger] m.dirs[folder].files[j]).path != p
        }),
        0 <= i < m.dirs.len(),
    ensures
        ({
            let after = m.without(m.dirs[folder].files[k].path);
            &&& after.dirs.len() == m.dirs.len()
            &&& after.dirs[i].path == m.dirs[i].path
            &&& after.dirs[i].files == if i == folder {
                m.dirs[i].files.remove(k)
            } else {
                m.dirs[i].files
            }
            &&& after.skipped == m.skipped
            &&& after.cancelled == m.cancelled
            &&& after.disk_total == m.disk_total
            &&& after.disk_free == m.disk_free
        }),
{
    let q = m.dirs[folder].path;
    let files = m.dirs[folder].files;
    let p = files[k].path;
    assert(m.has_dir(q));
    let f = choose|f: int| 0 <= f < m.dirs.len() && (#[trigger] m.dirs[f]).path == q;
    assert(f == folder) by {
        if f < folder {
            assert(m.dirs[f].path != m.dirs[folder].path);
        } else if folder < f {
            assert(m.dirs[folder].path != m.dirs[f].path);
        }
    }
    assert(m.files_of(q) == files);
    assert(crate::model::names_file(files, p));
    assert(crate::model::is_first_file(files, p, k));
    crate::model::lemma_first_file_is(files, p, k);
    if i != folder {
        if i < folder {
            assert(m.dirs[i].path != m.dirs[folder].path);
        } else {
            assert(m.dirs[folder].path != m.dirs[i].path);
        }
    }
}

/// Adding a folder to a tree adds it and whatever is missing above it, and nothing else, without
/// files. Everything that was there stays where it was.
pub proof fn law_an_added_folder_brings_those_above_it(
    m: TreeModel,
    p: Seq<Part>,
    after: TreeModel,
    q: Seq<Part>,
    i: int,
)
    requires
        m.wf(),
        crate::laws::extends(m.root(), p),
        m.is_with_dir(p, after),
    ensures
        after.has_dir(q) <==> m.has_dir(q) || (m.root().len() <= q.len() && q.is_prefix_of(p)),
        m.dirs.len() <= after.dirs.len(),
        0 <= i < m.dirs.len() ==> after.dirs[i] == m.dirs[i],
        m.dirs.len() <= i < after.dirs.len() ==> after.dirs[i].files.len() == 0,
        after.skipped == m.skipped,
        after.cancelled == m.cancelled,
        after.disk_total == m.disk_total,
        after.disk_free == m.disk_free,
{
    crate::laws::lemma_within_prefix(m.root(), p, q);
    if 0 <= i < m.dirs.len() {
        assert(m.dirs[i] == after.dirs.subrange(0, m.dirs.len() as int)[i]);
    }
}

} // verus!

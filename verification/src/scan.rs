//! The summary of a single scan.
use vstd::prelude::*;

use crate::index::PathIndex;
use crate::path::{FilePath, Part};
use crate::progress::Progress;
use crate::report::{DirRec, DirSize, FileRec, ScanReport};
use crate::walk::{Walk, WalkRec};

verus! {

/// The file sits directly in `root`.
pub open spec fn directly_in(root: Seq<Part>) -> spec_fn(FileRec) -> bool {
    |f: FileRec| root.is_prefix_of(f.path) && f.path.len() == root.len() + 1
}

/// The file sits in some sub-folder of `root`.
pub open spec fn deeper_in(root: Seq<Part>, f: FileRec) -> bool {
    root.is_prefix_of(f.path) && f.path.len() >= root.len() + 2
}

/// The immediate sub-folder of `root` that a file deeper down belongs to.
pub open spec fn sub_folder(root: Seq<Part>, f: FileRec) -> Seq<Part> {
    f.path.take(root.len() as int + 1)
}

/// The file lies in the immediate sub-folder `d` of `root`.
pub open spec fn in_folder(root: Seq<Part>, d: Seq<Part>) -> spec_fn(FileRec) -> bool {
    |f: FileRec| deeper_in(root, f) && sub_folder(root, f) == d
}

/// The record of the immediate sub-folder `d` of `root`.
pub open spec fn folder_rec(root: Seq<Part>, files: Seq<FileRec>, d: Seq<Part>) -> DirRec {
    DirRec {
        path: d,
        size: crate::report::files_size(files.filter(in_folder(root, d))) as u64,
        file_count: files.filter(in_folder(root, d)).len() as u64,
    }
}

/// The walked directory `p` is the immediate sub-folder `d` of `root`, or lies below it.
pub open spec fn folder_above(root: Seq<Part>, p: Seq<Part>, d: Seq<Part>) -> bool {
    root.is_prefix_of(p) && p.len() > root.len() && p.take(root.len() as int + 1) == d
}

/// A directory was walked that is the immediate sub-folder `d` of `root`, or lies below it.
pub open spec fn folder_walked(root: Seq<Part>, dirs: Seq<Seq<Part>>, d: Seq<Part>) -> bool {
    exists|i: int| 0 <= i < dirs.len() && folder_above(root, #[trigger] dirs[i], d)
}

/// `all` lists the immediate sub-folders of `root`, each once, with the bytes and the
/// number of the files in it: those that were walked, and those that files lie in.
pub open spec fn is_folder_list(
    root: Seq<Part>,
    dirs: Seq<Seq<Part>>,
    files: Seq<FileRec>,
    all: Seq<DirRec>,
) -> bool {
    &&& forall|i: int|
        0 <= i < all.len() ==> #[trigger] all[i] == folder_rec(root, files, all[i].path)
    &&& forall|i: int, j: int|
        0 <= i < j < all.len() ==> (#[trigger] all[i]).path != (#[trigger] all[j]).path
    &&& forall|d: Seq<Part>| #[trigger]
        lists(all, d) <==> folder_walked(root, dirs, d) || exists|i: int|
            0 <= i < files.len() && in_folder(root, d)(#[trigger] files[i])
}

/// Some record of the list is about `d`.
pub open spec fn lists(all: Seq<DirRec>, d: Seq<Part>) -> bool {
    exists|i: int| 0 <= i < all.len() && (#[trigger] all[i]).path == d
}

/// `out` holds the `n` biggest sub-folders of `root`, largest first.
pub open spec fn are_top_folders(
    root: Seq<Part>,
    dirs: Seq<Seq<Part>>,
    files: Seq<FileRec>,
    out: Seq<DirRec>,
    n: nat,
) -> bool {
    exists|all: Seq<DirRec>| #[trigger]
        is_folder_list(root, dirs, files, all) && crate::report::is_top(
            all,
            out,
            n,
            crate::report::larger_dir(),
        )
}

/// `r` summarises what a walk of `root` saw.
pub open spec fn is_scan(
    root: Seq<Part>,
    top_n: nat,
    walked: WalkRec,
    disk: (u64, u64),
    r: ScanReport,
) -> bool {
    &&& r.root@ == root
    &&& r.total_size == crate::report::files_size(walked.files)
    &&& r.total_files == walked.files.len()
    &&& r.total_dirs == walked.dirs.len()
    &&& r.skipped == walked.skipped.len()
    &&& are_top_folders(
        root,
        walked.dirs,
        walked.files,
        crate::sort::views(r.children@),
        top_n,
    )
    &&& r.root_files_size == crate::report::files_size(walked.files.filter(directly_in(root)))
    &&& r.root_files_count == walked.files.filter(directly_in(root)).len()
    &&& crate::report::is_top(
        walked.files,
        crate::sort::views(r.top_files@),
        top_n,
        crate::report::larger_file(),
    )
    &&& r.disk_total == disk.0
    &&& r.disk_free == disk.1
}

/// Summarises a walk of `root`: total size, the `top_n` biggest immediate sub-folders,
/// the bytes of files directly in the root, and the `top_n` biggest files. `disk` is
/// the total and free space of the disk that holds `root`.
pub fn scan_with_progress(
    root: &FilePath,
    top_n: usize,
    walked: Walk,
    progress: &Progress,
    disk: (u64, u64),
) -> (r: ScanReport)
    requires
        crate::report::files_size(walked@.files) <= u64::MAX,
    ensures
        is_scan(root@, top_n as nat, walked@, disk, r),
        r.cancelled == progress@.cancelled,
{
    let ghost files0 = walked@.files;
    let files = walked.files;
    let total_files: u64 = files.len() as u64;
    let total_dirs: u64 = walked.dirs.len() as u64;
    let mut total_size: u64 = 0;
    let mut folders: Vec<DirSize> = Vec::new();
    let mut index = PathIndex::new();
    walked_folders(root, &walked.dirs, &mut folders, &mut index);
    let ghost dirs0 = walked@.dirs;
    let mut root_files_size: u64 = 0;
    let mut root_files_count: u64 = 0;
    let ghost here = directly_in(root@);
    let mut k: usize = 0;
    proof {
        reveal(Seq::filter);
        assert(files0.take(0) =~= Seq::<FileRec>::empty());
        assert(folders_match(root@, dirs0, files0.take(0), folders@, index@));
    }
    while k < files.len()
        invariant
            k <= files.len(),
            files0 == crate::sort::views(files@),
            files0.len() <= usize::MAX,
            crate::report::files_size(files0) <= u64::MAX,
            here == directly_in(root@),
            total_size == crate::report::files_size(files0.take(k as int)),
            root_files_size == crate::report::files_size(files0.take(k as int).filter(here)),
            root_files_count == files0.take(k as int).filter(here).len(),
            index.wf(),
            folders_match(root@, dirs0, files0.take(k as int), folders@, index@),
        decreases files.len() - k,
    {
        let f = &files[k];
        let ghost seen = files0.take(k as int);
        let ghost more = files0.take(k + 1);
        proof {
            reveal(Seq::filter);
            assert(f@ == files0[k as int]);
            assert(more.drop_last() =~= seen);
            assert(more.last() == f@);
            crate::report::lemma_files_size_take(files0, k + 1);
            crate::report::lemma_files_size_filter(more, here);
            if here(f@) {
                assert(more.filter(here).drop_last() =~= seen.filter(here));
            }
            more.lemma_filter_len(here);
        }
        total_size += f.size;
        let n: usize = root.len();
        if f.path.starts_with(root) {
            if f.path.len() - n >= 2 {
                let key = f.path.prefix(n + 1);
                proof {
                    lemma_folder_bound(root@, dirs0, files0, k as int, folders@, index@);
                }
                match index.get(&key) {
                    Some(id) => {
                        let ghost before = folders@;
                        folders[id].size += f.size;
                        folders[id].file_count += 1;
                        proof {
                            lemma_folder_grows(root@, dirs0, files0, k as int, before, folders@, index@);
                        }
                    },
                    None => {
                        let id: usize = folders.len();
                        let ghost before = folders@;
                        let ghost old_index = index@;
                        index.insert(key.clone(), id);
                        folders.push(DirSize { path: key, size: f.size, file_count: 1 });
                        proof {
                            lemma_folder_new(
                                root@,
                                dirs0,
                                files0,
                                k as int,
                                before,
                                old_index,
                                folders@,
                                index@,
                            );
                        }
                    },
                }
            } else {
                if f.path.len() - n == 1 {
                    root_files_size += f.size;
                    root_files_count += 1;
                }
                proof {
                    lemma_folder_same(root@, dirs0, files0, k as int, folders@, index@);
                }
            }
        } else {
            proof {
                lemma_folder_same(root@, dirs0, files0, k as int, folders@, index@);
            }
        }
        k += 1;
    }
    assert(files0.take(k as int) =~= files0);
    proof {
        lemma_folder_list(root@, dirs0, files0, folders@, index@);
    }
    let children = crate::report::top_dirs(folders, top_n);
    let top_files = crate::report::top_files(files, top_n);
    ScanReport {
        root: root.clone(),
        total_size,
        total_files,
        total_dirs,
        skipped: walked.skipped.len() as u64,
        children,
        root_files_size,
        root_files_count,
        top_files,
        disk_total: disk.0,
        disk_free: disk.1,
        cancelled: progress.cancelled(),
    }
}

/// Notes the immediate sub-folders of `root` among walked directories, with no files yet.
fn walked_folders(
    root: &FilePath,
    dirs: &Vec<FilePath>,
    folders: &mut Vec<DirSize>,
    index: &mut PathIndex,
)
    requires
        old(folders)@.len() == 0,
        old(index).wf(),
        old(index)@ == Map::<Seq<Part>, usize>::empty(),
    ensures
        final(index).wf(),
        folders_match(
            root@,
            crate::sort::views(dirs@),
            Seq::empty(),
            final(folders)@,
            final(index)@,
        ),
{
    let ghost all = crate::sort::views(dirs@);
    let ghost none = Seq::<FileRec>::empty();
    let n: usize = root.len();
    let mut k: usize = 0;
    assert(folders_match(root@, all.take(0), none, folders@, index@));
    while k < dirs.len()
        invariant
            k <= dirs.len(),
            n == root@.len(),
            all == crate::sort::views(dirs@),
            none == Seq::<FileRec>::empty(),
            index.wf(),
            folders_match(root@, all.take(k as int), none, folders@, index@),
        decreases dirs.len() - k,
    {
        let d = &dirs[k];
        assert(all[k as int] == d@);
        let ghost before = folders@;
        let ghost old_index = index@;
        if d.starts_with(root) && d.len() > n {
            let key = d.prefix(n + 1);
            match index.get(&key) {
                Some(_) => {},
                None => {
                    let id: usize = folders.len();
                    index.insert(key.clone(), id);
                    folders.push(DirSize { path: key, size: 0, file_count: 0 });
                    assert(folders@.drop_last() =~= before);
                },
            }
        }
        proof {
            lemma_dir_noted(root@, all, k as int, before, old_index, folders@, index@);
        }
        k += 1;
    }
    assert(all.take(k as int) =~= all);
}

/// Total and available bytes of a filesystem, from what asking for each gave. Where that
/// failed (e.g. an unmounted or unreadable path) it is 0, so callers can treat 0 as
/// "unknown" without handling an error.
pub fn disk_space(total: Option<u64>, free: Option<u64>) -> (r: (u64, u64))
    ensures
        r.0 == (match total {
            Some(n) => n,
            None => 0,
        }),
        r.1 == (match free {
            Some(n) => n,
            None => 0,
        }),
{
    let total: u64 = match total {
        Some(n) => n,
        None => 0,
    };
    let free: u64 = match free {
        Some(n) => n,
        None => 0,
    };
    (total, free)
}

/// Summarises a completed walk of `root`. See [`scan_with_progress`].
pub fn scan(root: &FilePath, top_n: usize, walked: Walk, disk: (u64, u64)) -> (r: ScanReport)
    requires
        crate::report::files_size(walked@.files) <= u64::MAX,
    ensures
        is_scan(root@, top_n as nat, walked@, disk, r),
        !r.cancelled,
{
    let progress = Progress::default();
    scan_with_progress(root, top_n, walked, &progress, disk)
}

/// The folders found so far, and where the index finds them.
spec fn folders_match(
    root: Seq<Part>,
    dirs: Seq<Seq<Part>>,
    files: Seq<FileRec>,
    folders: Seq<DirSize>,
    index: Map<Seq<Part>, usize>,
) -> bool {
    &&& forall|i: int|
        0 <= i < folders.len() ==> {
            let d = (#[trigger] folders[i]).path@;
            &&& index.contains_key(d)
            &&& index[d] == i
            &&& folders[i].size == crate::report::files_size(files.filter(in_folder(root, d)))
            &&& folders[i].file_count == files.filter(in_folder(root, d)).len()
        }
    &&& forall|d: Seq<Part>| #[trigger]
        index.contains_key(d) ==> index[d] < folders.len() && folders[index[d] as int].path@ == d
    &&& forall|d: Seq<Part>| #[trigger]
        index.contains_key(d) <==> folder_walked(root, dirs, d) || exists|j: int|
            0 <= j < files.len() && in_folder(root, d)(#[trigger] files[j])
}

/// Noting one more walked directory.
proof fn lemma_dir_noted(
    root: Seq<Part>,
    dirs: Seq<Seq<Part>>,
    k: int,
    before: Seq<DirSize>,
    old_index: Map<Seq<Part>, usize>,
    folders: Seq<DirSize>,
    index: Map<Seq<Part>, usize>,
)
    requires
        0 <= k < dirs.len(),
        folders_match(root, dirs.take(k), Seq::empty(), before, old_index),
        ({
            let key = dirs[k].take(root.len() as int + 1);
            if root.is_prefix_of(dirs[k]) && dirs[k].len() > root.len() && !old_index.contains_key(
                key,
            ) {
                &&& before.len() <= usize::MAX
                &&& index == old_index.insert(key, before.len() as usize)
                &&& folders.len() == before.len() + 1
                &&& folders.drop_last() == before
                &&& folders.last().path@ == key
                &&& folders.last().size == 0
                &&& folders.last().file_count == 0
            } else {
                folders == before && index == old_index
            }
        }),
    ensures
        folders_match(root, dirs.take(k + 1), Seq::empty(), folders, index),
{
    let none = Seq::<FileRec>::empty();
    let key = dirs[k].take(root.len() as int + 1);
    let a = dirs.take(k);
    let b = dirs.take(k + 1);
    assert forall|d: Seq<Part>| #[trigger] folder_walked(root, b, d) <==> folder_walked(root, a, d)
        || folder_above(root, dirs[k], d) by {
        assert(b[k] == dirs[k]);
        if folder_walked(root, a, d) {
            let i = choose|i: int| 0 <= i < a.len() && folder_above(root, #[trigger] a[i], d);
            assert(b[i] == a[i]);
        }
        if folder_walked(root, b, d) {
            let i = choose|i: int| 0 <= i < b.len() && folder_above(root, #[trigger] b[i], d);
            if i < k {
                assert(a[i] == b[i]);
            }
        }
    }
    assert forall|i: int| 0 <= i < folders.len() implies {
        let d = (#[trigger] folders[i]).path@;
        &&& index.contains_key(d)
        &&& index[d] == i
        &&& folders[i].size == crate::report::files_size(none.filter(in_folder(root, d)))
        &&& folders[i].file_count == none.filter(in_folder(root, d)).len()
    } by {
        crate::sort::lemma_filter_none(none, in_folder(root, folders[i].path@));
        if i < before.len() {
            assert(folders[i] == before[i]);
            assert(old_index.contains_key(before[i].path@));
        }
    }
    assert forall|d: Seq<Part>| #[trigger]
        index.contains_key(d) <==> folder_walked(root, b, d) || exists|j: int|
            0 <= j < none.len() && in_folder(root, d)(#[trigger] none[j]) by {
        assert(old_index.contains_key(d) <==> folder_walked(root, a, d));
        assert(folder_walked(root, b, d) <==> folder_walked(root, a, d) || folder_above(
            root,
            dirs[k],
            d,
        ));
    }
    assert forall|d: Seq<Part>| #[trigger] index.contains_key(d) implies index[d] < folders.len()
        && folders[index[d] as int].path@ == d by {
        if old_index.contains_key(d) {
            assert(before[old_index[d] as int].path@ == d);
            assert(folders[old_index[d] as int] == before[old_index[d] as int]);
        }
    }
}

proof fn lemma_more_in_folder(root: Seq<Part>, files: Seq<FileRec>, k: int, d: Seq<Part>)
    requires
        0 <= k < files.len(),
    ensures
        files.take(k + 1).filter(in_folder(root, d)) == if in_folder(root, d)(files[k]) {
            files.take(k).filter(in_folder(root, d)).push(files[k])
        } else {
            files.take(k).filter(in_folder(root, d))
        },
        (exists|j: int|
            0 <= j < k + 1 && in_folder(root, d)(#[trigger] files.take(k + 1)[j])) <==> ((exists|
            j: int,
        |
            0 <= j < k && in_folder(root, d)(#[trigger] files.take(k)[j])) || in_folder(root, d)(
            files[k],
        )),
{
    reveal(Seq::filter);
    let a = files.take(k);
    let b = files.take(k + 1);
    assert(b.drop_last() =~= a);
    assert(b[k] == files[k]);
    assert forall|j: int| 0 <= j < k implies #[trigger] b[j] == a[j] by {}
    assert forall|j: int| 0 <= j < k implies #[trigger] a[j] == b[j] by {}
}

proof fn lemma_folder_bound(
    root: Seq<Part>,
    dirs: Seq<Seq<Part>>,
    files: Seq<FileRec>,
    k: int,
    folders: Seq<DirSize>,
    index: Map<Seq<Part>, usize>,
)
    requires
        0 <= k < files.len() <= usize::MAX,
        crate::report::files_size(files) <= u64::MAX,
        folders_match(root, dirs, files.take(k), folders, index),
        deeper_in(root, files[k]),
    ensures
        ({
            let d = sub_folder(root, files[k]);
            index.contains_key(d) ==> folders[index[d] as int].size + files[k].size <= u64::MAX
                && folders[index[d] as int].file_count + 1 <= u64::MAX
        }),
{
    let d = sub_folder(root, files[k]);
    let keep = in_folder(root, d);
    lemma_more_in_folder(root, files, k, d);
    if index.contains_key(d) {
        let i = index[d] as int;
        assert(folders[i].path@ == d);
        let was = files.take(k).filter(keep);
        assert(was.push(files[k]).drop_last() =~= was);
        crate::report::lemma_files_size_filter(files.take(k + 1), keep);
        crate::report::lemma_files_size_take(files, k + 1);
        files.take(k).lemma_filter_len(keep);
    }
}

proof fn lemma_folder_same(
    root: Seq<Part>,
    dirs: Seq<Seq<Part>>,
    files: Seq<FileRec>,
    k: int,
    folders: Seq<DirSize>,
    index: Map<Seq<Part>, usize>,
)
    requires
        0 <= k < files.len(),
        folders_match(root, dirs, files.take(k), folders, index),
        !deeper_in(root, files[k]),
    ensures
        folders_match(root, dirs, files.take(k + 1), folders, index),
{
    assert forall|i: int| 0 <= i < folders.len() implies {
        let d = (#[trigger] folders[i]).path@;
        &&& index.contains_key(d)
        &&& index[d] == i
        &&& folders[i].size == crate::report::files_size(
            files.take(k + 1).filter(in_folder(root, d)),
        )
        &&& folders[i].file_count == files.take(k + 1).filter(in_folder(root, d)).len()
    } by {
        lemma_more_in_folder(root, files, k, folders[i].path@);
    }
    assert forall|d: Seq<Part>| #[trigger]
        index.contains_key(d) <==> folder_walked(root, dirs, d) || exists|j: int|
            0 <= j < files.take(k + 1).len() && in_folder(root, d)(
                #[trigger] files.take(k + 1)[j],
            ) by {
        lemma_more_in_folder(root, files, k, d);
    }
}

proof fn lemma_folder_grows(
    root: Seq<Part>,
    dirs: Seq<Seq<Part>>,
    files: Seq<FileRec>,
    k: int,
    before: Seq<DirSize>,
    folders: Seq<DirSize>,
    index: Map<Seq<Part>, usize>,
)
    requires
        0 <= k < files.len(),
        folders_match(root, dirs, files.take(k), before, index),
        deeper_in(root, files[k]),
        index.contains_key(sub_folder(root, files[k])),
        folders.len() == before.len(),
        forall|i: int|
            0 <= i < before.len() && i != index[sub_folder(root, files[k])] ==> #[trigger] folders[i]
                == before[i],
        ({
            let i = index[sub_folder(root, files[k])] as int;
            &&& folders[i].path == before[i].path
            &&& folders[i].size == before[i].size + files[k].size
            &&& folders[i].file_count == before[i].file_count + 1
        }),
    ensures
        folders_match(root, dirs, files.take(k + 1), folders, index),
{
    let key = sub_folder(root, files[k]);
    let at = index[key] as int;
    assert forall|i: int| 0 <= i < folders.len() implies (#[trigger] folders[i]).path
        == before[i].path by {}
    assert forall|i: int| 0 <= i < folders.len() implies {
        let d = (#[trigger] folders[i]).path@;
        &&& index.contains_key(d)
        &&& index[d] == i
        &&& folders[i].size == crate::report::files_size(
            files.take(k + 1).filter(in_folder(root, d)),
        )
        &&& folders[i].file_count == files.take(k + 1).filter(in_folder(root, d)).len()
    } by {
        let d = before[i].path@;
        lemma_more_in_folder(root, files, k, d);
        assert(index[d] == i);
        let was = files.take(k).filter(in_folder(root, d));
        assert(was.push(files[k]).drop_last() =~= was);
        if i != at {
            assert(before[at].path@ == key);
        }
    }
    assert forall|d: Seq<Part>| #[trigger]
        index.contains_key(d) <==> folder_walked(root, dirs, d) || exists|j: int|
            0 <= j < files.take(k + 1).len() && in_folder(root, d)(
                #[trigger] files.take(k + 1)[j],
            ) by {
        lemma_more_in_folder(root, files, k, d);
    }
    assert forall|d: Seq<Part>| #[trigger] index.contains_key(d) implies index[d] < folders.len()
        && folders[index[d] as int].path@ == d by {
        assert(before[index[d] as int].path@ == d);
    }
}

proof fn lemma_folder_new(
    root: Seq<Part>,
    dirs: Seq<Seq<Part>>,
    files: Seq<FileRec>,
    k: int,
    before: Seq<DirSize>,
    old_index: Map<Seq<Part>, usize>,
    folders: Seq<DirSize>,
    index: Map<Seq<Part>, usize>,
)
    requires
        0 <= k < files.len(),
        folders_match(root, dirs, files.take(k), before, old_index),
        deeper_in(root, files[k]),
        !old_index.contains_key(sub_folder(root, files[k])),
        before.len() <= usize::MAX,
        index == old_index.insert(sub_folder(root, files[k]), before.len() as usize),
        folders.len() == before.len() + 1,
        forall|i: int| 0 <= i < before.len() ==> #[trigger] folders[i] == before[i],
        folders.last().path@ == sub_folder(root, files[k]),
        folders.last().size == files[k].size,
        folders.last().file_count == 1,
    ensures
        folders_match(root, dirs, files.take(k + 1), folders, index),
{
    let key = sub_folder(root, files[k]);
    assert forall|i: int| 0 <= i < folders.len() implies {
        let d = (#[trigger] folders[i]).path@;
        &&& index.contains_key(d)
        &&& index[d] == i
        &&& folders[i].size == crate::report::files_size(
            files.take(k + 1).filter(in_folder(root, d)),
        )
        &&& folders[i].file_count == files.take(k + 1).filter(in_folder(root, d)).len()
    } by {
        let d = folders[i].path@;
        lemma_more_in_folder(root, files, k, d);
        if i < before.len() {
            assert(old_index.contains_key(before[i].path@));
        } else {
            let seen = files.take(k);
            assert forall|j: int| 0 <= j < seen.len() implies !in_folder(root, key)(
                #[trigger] seen[j],
            ) by {
                assert(!old_index.contains_key(key));
            }
            crate::sort::lemma_filter_none(seen, in_folder(root, key));
            let one = Seq::<FileRec>::empty().push(files[k]);
            assert(one.drop_last() =~= Seq::<FileRec>::empty());
            assert(in_folder(root, key)(files[k]));
            assert(d == key);
            assert(files.take(k + 1).filter(in_folder(root, d)) == one);
            reveal_with_fuel(crate::report::files_size, 2);
            assert(crate::report::files_size(one) == files[k].size);
            assert(folders[i] == folders.last());
        }
    }
    assert forall|d: Seq<Part>| #[trigger]
        index.contains_key(d) <==> folder_walked(root, dirs, d) || exists|j: int|
            0 <= j < files.take(k + 1).len() && in_folder(root, d)(
                #[trigger] files.take(k + 1)[j],
            ) by {
        lemma_more_in_folder(root, files, k, d);
        assert(index.contains_key(d) <==> old_index.contains_key(d) || d == key);
    }
    assert forall|d: Seq<Part>| #[trigger] index.contains_key(d) implies index[d] < folders.len()
        && folders[index[d] as int].path@ == d by {
        if d != key {
            assert(old_index.contains_key(d));
        }
    }
}

proof fn lemma_folder_list(
    root: Seq<Part>,
    dirs: Seq<Seq<Part>>,
    files: Seq<FileRec>,
    folders: Seq<DirSize>,
    index: Map<Seq<Part>, usize>,
)
    requires
        folders_match(root, dirs, files, folders, index),
    ensures
        is_folder_list(root, dirs, files, crate::sort::views(folders)),
{
    let all = crate::sort::views(folders);
    assert forall|i: int| 0 <= i < all.len() implies #[trigger] all[i] == folder_rec(
        root,
        files,
        all[i].path,
    ) by {
        assert(folders[i].path@ == all[i].path);
    }
    assert forall|i: int, j: int| 0 <= i < j < all.len() implies (#[trigger] all[i]).path != (
    #[trigger] all[j]).path by {
        assert(index[folders[i].path@] == i && index[folders[j].path@] == j);
    }
    assert forall|d: Seq<Part>| #[trigger]
        lists(all, d) <==> folder_walked(root, dirs, d) || exists|i: int|
            0 <= i < files.len() && in_folder(root, d)(#[trigger] files[i]) by {
        if lists(all, d) {
            let i = choose|i: int| 0 <= i < all.len() && (#[trigger] all[i]).path == d;
            assert(folders[i].path@ == d);
            assert(index.contains_key(d));
        }
        if index.contains_key(d) {
            assert(all[index[d] as int].path == d);
        }
    }
}

} // verus!

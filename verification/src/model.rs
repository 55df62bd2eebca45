//! What a scanned tree is: its directories, the files in each, and the totals
//! that follow from them.
use vstd::prelude::*;

use crate::path::Part;
use crate::report::{DirRec, FileRec, ScanReport};

verus! {

/// A directory and the files that sit directly in it.
#[verifier::ext_equal]
pub struct DirNode {
    pub path: Seq<Part>,
    pub files: Seq<FileRec>,
}

/// A scanned tree. The first directory is the root.
#[verifier::ext_equal]
pub struct TreeModel {
    pub dirs: Seq<DirNode>,
    /// The directory of each entry that could not be read.
    pub skipped: Seq<Seq<Part>>,
    pub cancelled: bool,
    pub disk_total: u64,
    pub disk_free: u64,
}

/// The directory above `p` in a tree rooted at `root`: the one that holds it or,
/// for a path that no directory holds, the root.
pub open spec fn up(root: Seq<Part>, p: Seq<Part>) -> Seq<Part> {
    match crate::path::parent_of(p) {
        Some(q) => q,
        None => root,
    }
}

/// How many steps up from `p` suffice to reach the root.
pub open spec fn height(root: Seq<Part>, p: Seq<Part>) -> nat {
    if p == root {
        0
    } else {
        p.len() + 1
    }
}

/// `p` is `d` or lies below it.
pub open spec fn within(root: Seq<Part>, p: Seq<Part>, d: Seq<Part>) -> bool
    decreases height(root, p),
{
    p == d || (p != root && within(root, up(root, p), d))
}

/// The sum of `g` over a list of directories.
pub open spec fn dirs_sum(dirs: Seq<DirNode>, g: spec_fn(DirNode) -> nat) -> nat
    decreases dirs.len(),
{
    if dirs.len() == 0 {
        0
    } else {
        dirs_sum(dirs.drop_last(), g) + g(dirs.last())
    }
}

/// `g`, counted only for directories at or below `d`.
pub open spec fn only_within(
    root: Seq<Part>,
    d: Seq<Part>,
    g: spec_fn(DirNode) -> nat,
) -> spec_fn(DirNode) -> nat {
    |e: DirNode|
        if within(root, e.path, d) {
            g(e)
        } else {
            0
        }
}

/// The bytes of the files directly in a directory.
pub open spec fn own_size() -> spec_fn(DirNode) -> nat {
    |e: DirNode| crate::report::files_size(e.files)
}

/// The number of files directly in a directory.
pub open spec fn own_files() -> spec_fn(DirNode) -> nat {
    |e: DirNode| e.files.len()
}

/// Every directory counts once.
pub open spec fn own_dirs() -> spec_fn(DirNode) -> nat {
    |e: DirNode| 1
}

/// The immediate sub-folders of `d`.
pub open spec fn child_of(root: Seq<Part>, d: Seq<Part>) -> spec_fn(DirNode) -> bool {
    |e: DirNode| e.path != root && up(root, e.path) == d
}

/// The directories that do not lie at or below `p`.
pub open spec fn outside(root: Seq<Part>, p: Seq<Part>) -> spec_fn(DirNode) -> bool {
    |e: DirNode| !within(root, e.path, p)
}

/// Whether some file of the list has path `p`.
pub open spec fn names_file(files: Seq<FileRec>, p: Seq<Part>) -> bool {
    exists|k: int| 0 <= k < files.len() && (#[trigger] files[k]).path == p
}

/// Position `k` holds the first file whose path is `p`.
pub open spec fn is_first_file(files: Seq<FileRec>, p: Seq<Part>, k: int) -> bool {
    &&& 0 <= k < files.len()
    &&& files[k].path == p
    &&& forall|j: int| 0 <= j < k ==> (#[trigger] files[j]).path != p
}

/// Where the first file with path `p` is.
pub open spec fn first_file(files: Seq<FileRec>, p: Seq<Part>) -> int {
    choose|k: int| is_first_file(files, p, k)
}

/// The files of a list of directories that lie at or below `d`.
pub open spec fn files_within(root: Seq<Part>, dirs: Seq<DirNode>, d: Seq<Part>) -> Seq<FileRec>
    decreases dirs.len(),
{
    if dirs.len() == 0 {
        Seq::empty()
    } else if within(root, dirs.last().path, d) {
        files_within(root, dirs.drop_last(), d) + dirs.last().files
    } else {
        files_within(root, dirs.drop_last(), d)
    }
}

/// The paths at or below `d`.
pub open spec fn within_dir(root: Seq<Part>, d: Seq<Part>) -> spec_fn(Seq<Part>) -> bool {
    |p: Seq<Part>| within(root, p, d)
}

impl TreeModel {
    /// The directory the tree was built from.
    pub open spec fn root(self) -> Seq<Part> {
        self.dirs[0].path
    }

    /// Whether `p` is a directory of the tree.
    pub open spec fn has_dir(self, p: Seq<Part>) -> bool {
        exists|i: int| 0 <= i < self.dirs.len() && (#[trigger] self.dirs[i]).path == p
    }

    /// There is a root, no directory occurs twice, and what is above a directory
    /// comes before it.
    pub open spec fn wf(self) -> bool {
        &&& self.dirs.len() > 0
        &&& forall|i: int, j: int|
            0 <= i < j < self.dirs.len() ==> (#[trigger] self.dirs[i]).path != (
            #[trigger] self.dirs[j]).path
        &&& forall|i: int|
            0 < i < self.dirs.len() ==> exists|k: int|
                0 <= k < i && (#[trigger] self.dirs[k]).path == up(
                    self.root(),
                    (#[trigger] self.dirs[i]).path,
                )
    }

    /// The sum of `g` over the directories at or below `d`.
    pub open spec fn total(self, d: Seq<Part>, g: spec_fn(DirNode) -> nat) -> nat {
        dirs_sum(self.dirs, only_within(self.root(), d, g))
    }

    /// Bytes in `d` and everything below it.
    pub open spec fn total_size(self, d: Seq<Part>) -> nat {
        self.total(d, own_size())
    }

    /// Files in `d` and everything below it.
    pub open spec fn total_files(self, d: Seq<Part>) -> nat {
        self.total(d, own_files())
    }

    /// Directories below `d`, not counting `d` itself.
    pub open spec fn total_dirs(self, d: Seq<Part>) -> int {
        self.total(d, own_dirs()) - 1
    }

    /// The files of the directory `d` itself.
    pub open spec fn files_of(self, d: Seq<Part>) -> Seq<FileRec> {
        let i = choose|i: int| 0 <= i < self.dirs.len() && (#[trigger] self.dirs[i]).path == d;
        self.dirs[i].files
    }

    /// The record of directory `d`.
    pub open spec fn dir_rec(self, d: Seq<Part>) -> DirRec {
        DirRec {
            path: d,
            size: self.total_size(d) as u64,
            file_count: self.total_files(d) as u64,
        }
    }

    /// The records of a list of directories.
    pub open spec fn dir_recs(self, dirs: Seq<DirNode>) -> Seq<DirRec> {
        Seq::new(dirs.len(), |i: int| self.dir_rec(dirs[i].path))
    }

    /// The immediate sub-folders of `d`, in the order in which they were added.
    pub open spec fn children(self, d: Seq<Part>) -> Seq<DirRec> {
        self.dir_recs(self.dirs.filter(child_of(self.root(), d)))
    }

    /// The tree without directory `p` and everything below it.
    pub open spec fn without_dir(self, p: Seq<Part>) -> TreeModel {
        TreeModel { dirs: self.dirs.filter(outside(self.root(), p)), ..self }
    }

    /// The tree without the first file in directory `q` whose path is `p`.
    pub open spec fn without_file(self, q: Seq<Part>, p: Seq<Part>) -> TreeModel {
        TreeModel {
            dirs: Seq::new(
                self.dirs.len(),
                |i: int|
                    if self.dirs[i].path == q {
                        DirNode {
                            path: q,
                            files: self.dirs[i].files.remove(first_file(self.dirs[i].files, p)),
                        }
                    } else {
                        self.dirs[i]
                    },
            ),
            ..self
        }
    }

    /// Whether `p` is a file that sits directly in a directory of the tree.
    pub open spec fn has_file(self, p: Seq<Part>) -> bool {
        match crate::path::parent_of(p) {
            Some(q) => self.has_dir(q) && names_file(self.files_of(q), p),
            None => false,
        }
    }

    /// Whether removing `p` finds something to remove.
    pub open spec fn removable(self, p: Seq<Part>) -> bool {
        if self.has_dir(p) {
            p != self.root()
        } else {
            self.has_file(p)
        }
    }

    /// The tree after `p`, a directory or a file, has been removed from it.
    pub open spec fn without(self, p: Seq<Part>) -> TreeModel {
        if !self.removable(p) {
            self
        } else if self.has_dir(p) {
            self.without_dir(p)
        } else {
            self.without_file(crate::path::parent_of(p)->0, p)
        }
    }

    /// `m` is the tree with directory `p` and whatever is missing above it added, all of
    /// them without files and behind the directories that were there.
    pub open spec fn is_with_dir(self, p: Seq<Part>, m: TreeModel) -> bool {
        &&& m.root() == self.root()
        &&& self.dirs.is_prefix_of(m.dirs)
        &&& forall|i: int|
            self.dirs.len() <= i < m.dirs.len() ==> (#[trigger] m.dirs[i]).files.len() == 0
        &&& forall|q: Seq<Part>| #[trigger]
            m.has_dir(q) <==> self.has_dir(q) || within(self.root(), p, q)
        &&& m == (TreeModel { dirs: m.dirs, ..self })
    }

    /// `r` reports on directory `d`: its totals, its biggest `top_n` immediate
    /// sub-folders, what sits directly in it, and `top_n` files anywhere below it
    /// that no other file there exceeds.
    pub open spec fn is_report(self, d: Seq<Part>, top_n: nat, r: ScanReport) -> bool {
        &&& r.root@ == d
        &&& r.total_size == self.total_size(d)
        &&& r.total_files == self.total_files(d)
        &&& r.total_dirs == self.total_dirs(d)
        &&& r.skipped == self.skipped_within(d)
        &&& crate::report::is_top(
            self.children(d),
            crate::sort::views(r.children@),
            top_n,
            crate::report::larger_dir(),
        )
        &&& r.root_files_size == crate::report::files_size(self.files_of(d))
        &&& r.root_files_count == self.files_of(d).len()
        &&& crate::report::is_largest(
            self.all_files(d),
            crate::sort::views(r.top_files@),
            top_n,
        )
        &&& r.disk_total == self.disk_total
        &&& r.disk_free == self.disk_free
        &&& r.cancelled == self.cancelled
    }

    /// How many entries in `d` and everything below it could not be read.
    pub open spec fn skipped_within(self, d: Seq<Part>) -> nat {
        self.skipped.filter(within_dir(self.root(), d)).len()
    }

    /// The files in `d` and everything below it.
    pub open spec fn all_files(self, d: Seq<Part>) -> Seq<FileRec> {
        files_within(self.root(), self.dirs, d)
    }
}

/// The files that sit directly in `d`.
pub open spec fn held_by(root: Seq<Part>, d: Seq<Part>) -> spec_fn(FileRec) -> bool {
    |f: FileRec| up(root, f.path) == d
}

/// `p` is the root, a walked directory, one that holds a walked file, or lies above
/// one of these.
pub open spec fn walked_dir(
    root: Seq<Part>,
    dirs: Seq<Seq<Part>>,
    files: Seq<FileRec>,
    p: Seq<Part>,
) -> bool {
    ||| p == root
    ||| exists|i: int| 0 <= i < dirs.len() && within(root, #[trigger] dirs[i], p)
    ||| exists|i: int|
        0 <= i < files.len() && within(root, up(root, (#[trigger] files[i]).path), p)
}

/// `m` is the tree of a walk that saw these directories and files: it has the
/// walked directories and what lies above them, and every directory has the files
/// that sit directly in it, in the order in which they were seen.
pub open spec fn is_tree_of(
    m: TreeModel,
    root: Seq<Part>,
    dirs: Seq<Seq<Part>>,
    files: Seq<FileRec>,
) -> bool {
    &&& m.wf()
    &&& m.root() == root
    &&& forall|p: Seq<Part>| #[trigger] m.has_dir(p) <==> walked_dir(root, dirs, files, p)
    &&& forall|i: int|
        0 <= i < m.dirs.len() ==> (#[trigger] m.dirs[i]).files == files.filter(
            held_by(root, m.dirs[i].path),
        )
}

/// Every path lies below the root of its tree.
pub proof fn lemma_within_root(root: Seq<Part>, p: Seq<Part>)
    ensures
        within(root, p, root),
    decreases height(root, p),
{
    if p != root {
        lemma_within_root(root, up(root, p));
    }
}

/// Lying below is transitive.
pub proof fn lemma_within_trans(root: Seq<Part>, a: Seq<Part>, b: Seq<Part>, c: Seq<Part>)
    requires
        within(root, a, b),
        within(root, b, c),
    ensures
        within(root, a, c),
    decreases height(root, a),
{
    if a != b {
        lemma_within_trans(root, up(root, a), b, c);
    }
}

/// Of two directories above the same path, one lies below the other.
pub proof fn lemma_within_linear(root: Seq<Part>, a: Seq<Part>, b: Seq<Part>, c: Seq<Part>)
    requires
        within(root, a, b),
        within(root, a, c),
    ensures
        within(root, b, c) || within(root, c, b),
    decreases height(root, a),
{
    if a != b && a != c {
        lemma_within_linear(root, up(root, a), b, c);
    }
}

proof fn lemma_within_height(root: Seq<Part>, a: Seq<Part>, b: Seq<Part>)
    requires
        within(root, a, b),
        a != b,
    ensures
        height(root, b) < height(root, a),
    decreases height(root, a),
{
    if up(root, a) != b {
        lemma_within_height(root, up(root, a), b);
    }
}

/// Paths that lie below each other are the same path.
pub proof fn lemma_within_antisym(root: Seq<Part>, a: Seq<Part>, b: Seq<Part>)
    requires
        within(root, a, b),
        within(root, b, a),
    ensures
        a == b,
{
    if a != b {
        lemma_within_height(root, a, b);
        lemma_within_height(root, b, a);
    }
}

/// Sums agree where the summands do.
pub proof fn lemma_sum_ext(
    dirs: Seq<DirNode>,
    f: spec_fn(DirNode) -> nat,
    g: spec_fn(DirNode) -> nat,
)
    requires
        forall|i: int| 0 <= i < dirs.len() ==> f(#[trigger] dirs[i]) == g(dirs[i]),
    ensures
        dirs_sum(dirs, f) == dirs_sum(dirs, g),
    decreases dirs.len(),
{
    if dirs.len() > 0 {
        assert forall|i: int| 0 <= i < dirs.drop_last().len() implies f(
            #[trigger] dirs.drop_last()[i],
        ) == g(dirs.drop_last()[i]) by {
            assert(dirs.drop_last()[i] == dirs[i]);
        }
        lemma_sum_ext(dirs.drop_last(), f, g);
        assert(dirs.last() == dirs[dirs.len() - 1]);
    }
}

/// A sum of sums is the sum of the parts.
pub proof fn lemma_sum_split(
    dirs: Seq<DirNode>,
    f: spec_fn(DirNode) -> nat,
    g: spec_fn(DirNode) -> nat,
    h: spec_fn(DirNode) -> nat,
)
    requires
        forall|i: int| 0 <= i < dirs.len() ==> h(#[trigger] dirs[i]) == f(dirs[i]) + g(dirs[i]),
    ensures
        dirs_sum(dirs, h) == dirs_sum(dirs, f) + dirs_sum(dirs, g),
    decreases dirs.len(),
{
    if dirs.len() > 0 {
        assert forall|i: int| 0 <= i < dirs.drop_last().len() implies h(
            #[trigger] dirs.drop_last()[i],
        ) == f(dirs.drop_last()[i]) + g(dirs.drop_last()[i]) by {
            assert(dirs.drop_last()[i] == dirs[i]);
        }
        lemma_sum_split(dirs.drop_last(), f, g, h);
        assert(dirs.last() == dirs[dirs.len() - 1]);
    }
}

/// Dropping directories from a list drops their summands.
pub proof fn lemma_sum_filter(
    dirs: Seq<DirNode>,
    keep: spec_fn(DirNode) -> bool,
    g: spec_fn(DirNode) -> nat,
)
    ensures
        dirs_sum(dirs.filter(keep), g) == dirs_sum(
            dirs,
            |e: DirNode|
                if keep(e) {
                    g(e)
                } else {
                    0
                },
        ),
    decreases dirs.len(),
{
    reveal(Seq::filter);
    if dirs.len() > 0 {
        lemma_sum_filter(dirs.drop_last(), keep, g);
        if keep(dirs.last()) {
            assert(dirs.filter(keep).drop_last() =~= dirs.drop_last().filter(keep));
        }
    }
}

/// The first directory of a list stays first if it stays at all.
pub(crate) proof fn lemma_filter_first(dirs: Seq<DirNode>, keep: spec_fn(DirNode) -> bool)
    requires
        dirs.len() > 0,
        keep(dirs[0]),
    ensures
        dirs.filter(keep).len() > 0,
        dirs.filter(keep)[0] == dirs[0],
    decreases dirs.len(),
{
    reveal(Seq::filter);
    if dirs.len() > 1 {
        lemma_filter_first(dirs.drop_last(), keep);
    } else {
        assert(dirs.drop_last().filter(keep) =~= Seq::<DirNode>::empty());
    }
}

/// Removing a directory takes what it counted for off every directory above it, and
/// leaves the totals of all others as they were.
pub proof fn law_remove_dir(
    m: TreeModel,
    p: Seq<Part>,
    d: Seq<Part>,
    g: spec_fn(DirNode) -> nat,
)
    requires
        m.wf(),
        m.has_dir(p),
        p != m.root(),
        !within(m.root(), d, p),
    ensures
        m.without_dir(p).root() == m.root(),
        m.total(d, g) == m.without_dir(p).total(d, g) + if within(m.root(), p, d) {
            m.total(p, g)
        } else {
            0
        },
{
    let root = m.root();
    let keep = outside(root, p);
    lemma_filter_first(m.dirs, keep);
    let of_d = only_within(root, d, g);
    let of_p = only_within(root, p, g);
    lemma_sum_filter(m.dirs, keep, of_d);
    let kept = |e: DirNode|
        if keep(e) {
            of_d(e)
        } else {
            0
        };
    let gone = |e: DirNode|
        if keep(e) {
            0
        } else {
            of_d(e)
        };
    lemma_sum_split(m.dirs, kept, gone, of_d);
    if within(root, p, d) {
        assert forall|i: int| 0 <= i < m.dirs.len() implies gone(#[trigger] m.dirs[i]) == of_p(
            m.dirs[i],
        ) by {
            if within(root, m.dirs[i].path, p) {
                lemma_within_trans(root, m.dirs[i].path, p, d);
            }
        }
        lemma_sum_ext(m.dirs, gone, of_p);
    } else {
        let none = |e: DirNode| 0nat;
        assert forall|i: int| 0 <= i < m.dirs.len() implies gone(#[trigger] m.dirs[i]) == none(
            m.dirs[i],
        ) by {
            let e = m.dirs[i].path;
            if within(root, e, p) && within(root, e, d) {
                lemma_within_linear(root, e, p, d);
            }
        }
        lemma_sum_ext(m.dirs, gone, none);
        lemma_sum_none(m.dirs);
    }
}

pub(crate) proof fn lemma_sum_none(dirs: Seq<DirNode>)
    ensures
        dirs_sum(dirs, |e: DirNode| 0nat) == 0,
    decreases dirs.len(),
{
    if dirs.len() > 0 {
        lemma_sum_none(dirs.drop_last());
    }
}

/// Sums over lists that differ in one place differ by what that place counts for.
proof fn lemma_sum_one_off(
    a: Seq<DirNode>,
    b: Seq<DirNode>,
    g: spec_fn(DirNode) -> nat,
    k: int,
    v: nat,
)
    requires
        a.len() == b.len(),
        forall|i: int|
            0 <= i < a.len() ==> g(#[trigger] a[i]) == g(b[i]) + if i == k {
                v
            } else {
                0
            },
    ensures
        dirs_sum(a, g) == dirs_sum(b, g) + if 0 <= k < a.len() {
            v
        } else {
            0
        },
    decreases a.len(),
{
    if a.len() > 0 {
        assert forall|i: int| 0 <= i < a.drop_last().len() implies g(#[trigger] a.drop_last()[i])
            == g(b.drop_last()[i]) + if i == k {
            v
        } else {
            0
        } by {
            assert(a.drop_last()[i] == a[i]);
        }
        lemma_sum_one_off(a.drop_last(), b.drop_last(), g, k, v);
        assert(g(a[a.len() - 1]) == g(b[a.len() - 1]) + if a.len() - 1 == k {
            v
        } else {
            0
        });
    }
}

pub(crate) proof fn lemma_first_file(files: Seq<FileRec>, p: Seq<Part>)
    requires
        names_file(files, p),
    ensures
        is_first_file(files, p, first_file(files, p)),
{
    let k = choose|k: int| 0 <= k < files.len() && (#[trigger] files[k]).path == p;
    lemma_first_file_below(files, p, k);
}

proof fn lemma_first_file_below(files: Seq<FileRec>, p: Seq<Part>, k: int)
    requires
        0 <= k < files.len(),
        files[k].path == p,
    ensures
        exists|j: int| is_first_file(files, p, j),
    decreases k,
{
    if exists|j: int| 0 <= j < k && (#[trigger] files[j]).path == p {
        let j = choose|j: int| 0 <= j < k && (#[trigger] files[j]).path == p;
        lemma_first_file_below(files, p, j);
    } else {
        assert(is_first_file(files, p, k));
    }
}

/// There is only one first file.
pub(crate) proof fn lemma_first_file_is(files: Seq<FileRec>, p: Seq<Part>, k: int)
    requires
        is_first_file(files, p, k),
    ensures
        names_file(files, p),
        first_file(files, p) == k,
{
    lemma_first_file(files, p);
    let c = first_file(files, p);
    if c < k {
        assert(files[c].path != p);
    } else if k < c {
        assert(files[k].path != p);
    }
}

/// Taking one file out of a list takes its bytes out of the total.
pub(crate) proof fn lemma_files_size_remove(files: Seq<FileRec>, k: int)
    requires
        0 <= k < files.len(),
    ensures
        crate::report::files_size(files) == crate::report::files_size(files.remove(k))
            + files[k].size,
{
    let a = files.take(k);
    let b = files.skip(k + 1);
    let one = seq![files[k]];
    assert(files =~= a + one + b);
    assert(files.remove(k) =~= a + b);
    crate::report::lemma_files_size_add(a + one, b);
    crate::report::lemma_files_size_add(a, one);
    crate::report::lemma_files_size_add(a, b);
    assert(one.drop_last() =~= Seq::<FileRec>::empty());
    assert(crate::report::files_size(one) == files[k].size) by {
        reveal_with_fuel(crate::report::files_size, 2);
    }
}

/// Removing a file takes its bytes and the file itself off its directory and every
/// directory above that, and leaves all other totals as they were.
pub proof fn law_remove_file(m: TreeModel, q: Seq<Part>, p: Seq<Part>, d: Seq<Part>)
    requires
        m.wf(),
        m.has_dir(q),
        names_file(m.files_of(q), p),
    ensures
        m.without_file(q, p).root() == m.root(),
        m.total_dirs(d) == m.without_file(q, p).total_dirs(d),
        m.total_files(d) == m.without_file(q, p).total_files(d) + if within(m.root(), q, d) {
            1nat
        } else {
            0
        },
        m.total_size(d) == m.without_file(q, p).total_size(d) + if within(m.root(), q, d) {
            m.files_of(q)[first_file(m.files_of(q), p)].size as nat
        } else {
            0
        },
{
    let root = m.root();
    let m2 = m.without_file(q, p);
    let c = choose|i: int| 0 <= i < m.dirs.len() && (#[trigger] m.dirs[i]).path == q;
    let files = m.dirs[c].files;
    lemma_first_file(files, p);
    let k = first_file(files, p);
    lemma_files_size_remove(files, k);
    assert(m2.root() == root);
    let above = within(root, q, d);
    assert forall|i: int| 0 <= i < m.dirs.len() && i != c implies #[trigger] m2.dirs[i]
        == m.dirs[i] by {
        if i < c {
            assert(m.dirs[i].path != m.dirs[c].path);
        } else {
            assert(m.dirs[c].path != m.dirs[i].path);
        }
    }
    let gs = only_within(root, d, own_size());
    let gf = only_within(root, d, own_files());
    let gd = only_within(root, d, own_dirs());
    let vs: nat = if above {
        files[k].size as nat
    } else {
        0
    };
    let vf: nat = if above {
        1
    } else {
        0
    };
    assert forall|i: int| 0 <= i < m.dirs.len() implies gs(#[trigger] m.dirs[i]) == gs(m2.dirs[i])
        + if i == c {
        vs
    } else {
        0
    } by {
        if i != c {
            assert(m2.dirs[i] == m.dirs[i]);
        }
    }
    assert forall|i: int| 0 <= i < m.dirs.len() implies gf(#[trigger] m.dirs[i]) == gf(m2.dirs[i])
        + if i == c {
        vf
    } else {
        0
    } by {
        if i != c {
            assert(m2.dirs[i] == m.dirs[i]);
        }
    }
    assert forall|i: int| 0 <= i < m.dirs.len() implies gd(#[trigger] m.dirs[i]) == gd(m2.dirs[i])
        + if i == c {
        0nat
    } else {
        0
    } by {
        if i != c {
            assert(m2.dirs[i] == m.dirs[i]);
        }
    }
    lemma_sum_one_off(m.dirs, m2.dirs, gs, c, vs);
    lemma_sum_one_off(m.dirs, m2.dirs, gf, c, vf);
    lemma_sum_one_off(m.dirs, m2.dirs, gd, c, 0);
}

} // verus!

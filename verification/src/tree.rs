//! The whole directory tree from a single walk, held in memory so a UI can
//! drill into any sub-folder, and back up, without touching the disk again.
//!
//! Nodes live in an arena and are looked up by path through an index. A node's
//! totals (`size`, `file_count`, `dir_count`) always cover its entire subtree;
//! the files sitting directly in a directory are kept on that node so any
//! sub-folder can produce the same [`ScanReport`] a fresh scan of it would.
use vstd::prelude::*;

use crate::index::PathIndex;
use crate::model::{DirNode, TreeModel};
use crate::path::{FilePath, Part};
use crate::report::{DirRec, DirSize, FileEntry, FileRec, ScanReport};
use crate::walk::Walk;

verus! {

struct Node {
    path: FilePath,
    /// The directory above; it always has a smaller id.
    parent: Option<usize>,
    /// Bytes in this directory and everything below it.
    size: u64,
    /// Files in this directory and everything below it.
    file_count: u64,
    /// Directories below this one (not counting itself).
    dir_count: u64,
    /// Files sitting directly in this directory.
    files: Vec<FileEntry>,
    /// Still part of the tree. The slot of a removed directory stays in the arena.
    live: bool,
}

impl Node {
    fn new(path: FilePath, parent: Option<usize>) -> (r: Node)
        ensures
            r.path == path,
            r.parent == parent,
            r.fresh(),
    {
        Node {
            path,
            parent,
            size: 0,
            file_count: 0,
            dir_count: 0,
            files: Vec::new(),
            live: true,
        }
    }

    spec fn fresh(self) -> bool {
        &&& self.live
        &&& self.files@.len() == 0
        &&& self.size == 0
        &&& self.file_count == 0
        &&& self.dir_count == 0
    }

    spec fn dir(self) -> DirNode {
        DirNode { path: self.path@, files: crate::sort::views(self.files@) }
    }
}

/// An in-memory scan of a directory tree. Build it once with
/// [`ScanTree::build`], then ask for a [`ScanReport`] of the root or of any
/// sub-folder with [`ScanTree::report`].
pub struct ScanTree {
    /// Arena; index 0 is always the root.
    nodes: Vec<Node>,
    index: PathIndex,
    /// The directory of each entry that could not be read.
    skipped: Vec<FilePath>,
    cancelled: bool,
    disk_total: u64,
    disk_free: u64,
}

/// The directories of an arena, in order of creation.
spec fn dir_nodes(nodes: Seq<Node>) -> Seq<DirNode>
    decreases nodes.len(),
{
    if nodes.len() == 0 {
        Seq::empty()
    } else if nodes.last().live {
        dir_nodes(nodes.drop_last()).push(nodes.last().dir())
    } else {
        dir_nodes(nodes.drop_last())
    }
}

/// The sum of `f` over the first `n` ids.
spec fn id_sum(n: nat, f: spec_fn(int) -> nat) -> nat
    decreases n,
{
    if n == 0 {
        0
    } else {
        id_sum((n - 1) as nat, f) + f(n - 1)
    }
}

proof fn lemma_id_sum_ext(n: nat, f: spec_fn(int) -> nat, g: spec_fn(int) -> nat)
    requires
        forall|i: int| 0 <= i < n ==> #[trigger] f(i) == g(i),
    ensures
        id_sum(n, f) == id_sum(n, g),
    decreases n,
{
    if n > 0 {
        lemma_id_sum_ext((n - 1) as nat, f, g);
        assert(f(n - 1) == g(n - 1));
    }
}

proof fn lemma_id_sum_split(
    n: nat,
    f: spec_fn(int) -> nat,
    g: spec_fn(int) -> nat,
    h: spec_fn(int) -> nat,
)
    requires
        forall|i: int| 0 <= i < n ==> #[trigger] h(i) == f(i) + g(i),
    ensures
        id_sum(n, h) == id_sum(n, f) + id_sum(n, g),
    decreases n,
{
    if n > 0 {
        lemma_id_sum_split((n - 1) as nat, f, g, h);
        assert(h(n - 1) == f(n - 1) + g(n - 1));
    }
}

proof fn lemma_id_sum_le(n: nat, f: spec_fn(int) -> nat, g: spec_fn(int) -> nat)
    requires
        forall|i: int| 0 <= i < n ==> #[trigger] f(i) <= g(i),
    ensures
        id_sum(n, f) <= id_sum(n, g),
    decreases n,
{
    if n > 0 {
        lemma_id_sum_le((n - 1) as nat, f, g);
        assert(f(n - 1) <= g(n - 1));
    }
}

/// The summand of id `i`: that of its directory, if it is still in the tree.
spec fn live_weight(nodes: Seq<Node>, g: spec_fn(DirNode) -> nat) -> spec_fn(int) -> nat {
    |i: int|
        if nodes[i].live {
            g(nodes[i].dir())
        } else {
            0
        }
}

/// Summing over the directories is summing over the live ids.
proof fn lemma_dirs_sum_ids(nodes: Seq<Node>, g: spec_fn(DirNode) -> nat)
    ensures
        crate::model::dirs_sum(dir_nodes(nodes), g) == id_sum(nodes.len(), live_weight(nodes, g)),
    decreases nodes.len(),
{
    if nodes.len() > 0 {
        let rest = nodes.drop_last();
        lemma_dirs_sum_ids(rest, g);
        lemma_id_sum_ext(rest.len(), live_weight(rest, g), live_weight(nodes, g));
        if nodes.last().live {
            assert(dir_nodes(nodes).drop_last() =~= dir_nodes(rest));
        }
    }
}

/// Where the directory of the live id `i` stands among the directories.
spec fn place(nodes: Seq<Node>, i: int) -> int {
    dir_nodes(nodes.take(i)).len() as int
}

proof fn lemma_place(nodes: Seq<Node>, i: int)
    requires
        0 <= i < nodes.len(),
        nodes[i].live,
    ensures
        0 <= place(nodes, i) < dir_nodes(nodes).len(),
        dir_nodes(nodes)[place(nodes, i)] == nodes[i].dir(),
    decreases nodes.len(),
{
    let rest = nodes.drop_last();
    if i == nodes.len() - 1 {
        assert(nodes.take(i) =~= rest);
    } else {
        lemma_place(rest, i);
        assert(rest.take(i) =~= nodes.take(i));
    }
}

proof fn lemma_place_order(nodes: Seq<Node>, i: int, j: int)
    requires
        0 <= i < j < nodes.len(),
        nodes[i].live,
    ensures
        place(nodes, i) < place(nodes, j),
{
    assert(nodes.take(j).take(i) =~= nodes.take(i));
    lemma_place(nodes.take(j), i);
}

/// Every directory is that of some live id.
proof fn lemma_placed(nodes: Seq<Node>, k: int) -> (i: int)
    requires
        0 <= k < dir_nodes(nodes).len(),
    ensures
        0 <= i < nodes.len(),
        nodes[i].live,
        place(nodes, i) == k,
        dir_nodes(nodes)[k] == nodes[i].dir(),
    decreases nodes.len(),
{
    let rest = nodes.drop_last();
    if nodes.last().live && k == dir_nodes(rest).len() {
        assert(nodes.take(nodes.len() - 1) =~= rest);
        nodes.len() - 1
    } else {
        let i = lemma_placed(rest, k);
        assert(rest.take(i) =~= nodes.take(i));
        i
    }
}

/// The arena is linked up: every directory below the root hangs off the one
/// above it, and the index finds exactly the directories of the tree.
spec fn linked(nodes: Seq<Node>, index: Map<Seq<Part>, usize>) -> bool {
    &&& nodes.len() > 0
    &&& nodes[0].live
    &&& nodes[0].parent is None
    &&& forall|i: int|
        0 < i < nodes.len() ==> (#[trigger] nodes[i]).parent is Some && nodes[i].parent->0 < i
    &&& forall|i: int|
        0 < i < nodes.len() && (#[trigger] nodes[i]).live ==> nodes[nodes[i].parent->0 as int].live
            && nodes[nodes[i].parent->0 as int].path@ == crate::model::up(
            nodes[0].path@,
            nodes[i].path@,
        )
    &&& forall|i: int|
        0 <= i < nodes.len() && (#[trigger] nodes[i]).live ==> index.contains_key(nodes[i].path@)
            && index[nodes[i].path@] == i
    &&& forall|p: Seq<Part>| #[trigger]
        index.contains_key(p) ==> index[p] < nodes.len() && nodes[index[p] as int].live
            && nodes[index[p] as int].path@ == p
}

/// The directories above a directory of the tree are in the tree.
proof fn lemma_upward(
    nodes: Seq<Node>,
    index: Map<Seq<Part>, usize>,
    p: Seq<Part>,
    d: Seq<Part>,
)
    requires
        linked(nodes, index),
        index.contains_key(p),
        crate::model::within(nodes[0].path@, p, d),
    ensures
        index.contains_key(d),
    decreases index[p],
{
    let root = nodes[0].path@;
    if p != d {
        let i = index[p] as int;
        assert(nodes[0].live);
        assert(i != 0);
        assert(nodes[i].live);
        let q = nodes[i].parent->0 as int;
        assert(nodes[q].live);
        assert(index[nodes[q].path@] == q);
        lemma_upward(nodes, index, nodes[q].path@, d);
    }
}

/// The tree that a value stands for always has its root, holds no directory twice, and
/// lists what is above a directory before it.
pub proof fn law_trees_are_well_formed(tree: ScanTree)
    requires
        tree.wf(),
    ensures
        tree@.wf(),
{
    lemma_model_wf(tree.nodes@, tree.index@, tree@);
}

proof fn lemma_model_wf(nodes: Seq<Node>, index: Map<Seq<Part>, usize>, m: TreeModel)
    requires
        linked(nodes, index),
        m.dirs == dir_nodes(nodes),
    ensures
        m.wf(),
        m.root() == nodes[0].path@,
        m.dirs[0] == nodes[0].dir(),
        forall|p: Seq<Part>| m.has_dir(p) <==> #[trigger] index.contains_key(p),
{
    lemma_place(nodes, 0);
    assert(nodes.take(0).len() == 0);
    assert(place(nodes, 0) == 0);
    assert forall|p: Seq<Part>| m.has_dir(p) <==> #[trigger] index.contains_key(p) by {
        if m.has_dir(p) {
            let k = choose|k: int| 0 <= k < m.dirs.len() && (#[trigger] m.dirs[k]).path == p;
            let i = lemma_placed(nodes, k);
            assert(nodes[i].live);
        }
        if index.contains_key(p) {
            lemma_place(nodes, index[p] as int);
            assert(m.dirs[place(nodes, index[p] as int)].path == p);
        }
    }
    assert forall|a: int, b: int| 0 <= a < b < m.dirs.len() implies (#[trigger] m.dirs[a]).path != (
    #[trigger] m.dirs[b]).path by {
        let i = lemma_placed(nodes, a);
        let j = lemma_placed(nodes, b);
        assert(nodes[i].live && nodes[j].live);
    }
    assert forall|b: int| 0 < b < m.dirs.len() implies exists|k: int|
        0 <= k < b && (#[trigger] m.dirs[k]).path == crate::model::up(
            m.root(),
            (#[trigger] m.dirs[b]).path,
        ) by {
        let i = lemma_placed(nodes, b);
        assert(i != 0);
        assert(nodes[i].live);
        let q = nodes[i].parent->0 as int;
        assert(nodes[q].live);
        lemma_place(nodes, q);
        lemma_place_order(nodes, q, i);
        assert(m.dirs[place(nodes, q)].path == nodes[q].path@);
    }
}

/// Whether `p` is `d` or lies below it in a tree with this root.
fn lies_within(root: &FilePath, p: &FilePath, d: &FilePath) -> (r: bool)
    ensures
        r == crate::model::within(root@, p@, d@),
{
    let mut cur = p.clone();
    while !cur.same(d)
        invariant
            crate::model::within(root@, p@, d@) == crate::model::within(root@, cur@, d@),
        decreases crate::model::height(root@, cur@),
    {
        if cur.same(root) {
            return false;
        }
        cur = match cur.parent() {
            Some(q) => q,
            None => root.clone(),
        };
    }
    true
}

impl ScanTree {
    /// The tree as a mathematical value.
    pub closed spec fn view(&self) -> TreeModel {
        TreeModel {
            dirs: dir_nodes(self.nodes@),
            skipped: crate::sort::views(self.skipped@),
            cancelled: self.cancelled,
            disk_total: self.disk_total,
            disk_free: self.disk_free,
        }
    }

    spec fn sound(&self) -> bool {
        &&& self.index.wf()
        &&& linked(self.nodes@, self.index@)
    }

    /// The tree holds together, and every directory's totals cover its subtree.
    pub closed spec fn wf(&self) -> bool {
        &&& self.sound()
        &&& forall|i: int|
            0 <= i < self.nodes@.len() && (#[trigger] self.nodes@[i]).live ==> {
                &&& self.nodes@[i].size == self@.total_size(self.nodes@[i].path@)
                &&& self.nodes@[i].file_count == self@.total_files(self.nodes@[i].path@)
                &&& self.nodes@[i].dir_count == self@.total_dirs(self.nodes@[i].path@)
            }
    }

    /// Builds the tree of what a walk of `root` saw. `cancelled` tells whether the walk
    /// was cut short; `disk` is the total and free space of the disk that holds `root`.
    pub fn build(root: &FilePath, walked: Walk, cancelled: bool, disk: (u64, u64)) -> (tree:
        ScanTree)
        requires
            crate::report::files_size(walked@.files) <= u64::MAX,
        ensures
            tree.wf(),
            crate::model::is_tree_of(tree@, root@, walked@.dirs, walked@.files),
            tree@.skipped == walked@.skipped,
            tree@.cancelled == cancelled,
            tree@.disk_total == disk.0,
            tree@.disk_free == disk.1,
    {
        let ghost dirs0 = crate::sort::views(walked.dirs@);
        let ghost files0 = crate::sort::views(walked.files@);
        let Walk { files: walked_files, dirs: walked_dirs, skipped } = walked;
        let mut tree = ScanTree {
            nodes: Vec::new(),
            index: PathIndex::new(),
            skipped,
            cancelled,
            disk_total: disk.0,
            disk_free: disk.1,
        };
        tree.nodes.push(Node::new(root.clone(), None));
        tree.index.insert(root.clone(), 0);
        let mut k: usize = 0;
        while k < walked_dirs.len()
            invariant
                k <= walked_dirs.len(),
                dirs0 == crate::sort::views(walked_dirs@),
                tree.sound(),
                tree.nodes@[0].path@ == root@,
                tree.skipped == skipped,
                tree.cancelled == cancelled,
                tree.disk_total == disk.0,
                tree.disk_free == disk.1,
                forall|i: int| 0 <= i < tree.nodes@.len() ==> (#[trigger] tree.nodes@[i]).fresh(),
                forall|p: Seq<Part>| #[trigger]
                    tree.index@.contains_key(p) <==> p == root@ || exists|j: int|
                        0 <= j < k && crate::model::within(root@, #[trigger] dirs0[j], p),
            decreases walked_dirs.len() - k,
        {
            let ghost before = tree;
            let _id: usize = tree.make_dir(&walked_dirs[k]);
            assert(dirs0[k as int] == walked_dirs@[k as int]@);
            assert forall|i: int| 0 <= i < tree.nodes@.len() implies (
            #[trigger] tree.nodes@[i]).fresh() by {
                if i < before.nodes@.len() {
                    assert(tree.nodes@[i] == before.nodes@[i]);
                }
            }
            assert forall|p: Seq<Part>| #[trigger]
                tree.index@.contains_key(p) <==> p == root@ || exists|j: int|
                    0 <= j < k + 1 && crate::model::within(root@, #[trigger] dirs0[j], p) by {
                assert(tree.index@.contains_key(p) <==> before.index@.contains_key(p)
                    || crate::model::within(root@, dirs0[k as int], p));
            }
            k += 1;
        }
        assert(walked_files.len() <= usize::MAX);
        tree.add_files(walked_files, Ghost(dirs0));
        tree.roll_up();
        proof {
            lemma_model_wf(tree.nodes@, tree.index@, tree@);
            assert forall|p: Seq<Part>| #[trigger]
                tree@.has_dir(p) <==> crate::model::walked_dir(root@, dirs0, files0, p) by {
                assert(tree.index@.contains_key(p) <==> crate::model::walked_dir(
                    root@,
                    dirs0,
                    files0,
                    p,
                ));
            }
            assert forall|i: int| 0 <= i < tree@.dirs.len() implies (
            #[trigger] tree@.dirs[i]).files == files0.filter(
                crate::model::held_by(root@, tree@.dirs[i].path),
            ) by {
                let n = lemma_placed(tree.nodes@, i);
            }
        }
        tree
    }

    /// Hands every file to the directory that holds it.
    #[verifier::spinoff_prover]
    #[verifier::rlimit(60)]
    fn add_files(&mut self, files: Vec<FileEntry>, Ghost(dirs0): Ghost<Seq<Seq<Part>>>)
        requires
            old(self).sound(),
            forall|i: int|
                0 <= i < old(self).nodes@.len() ==> (#[trigger] old(self).nodes@[i]).fresh(),
            forall|p: Seq<Part>| #[trigger]
                old(self).index@.contains_key(p) <==> p == old(self).nodes@[0].path@ || exists|j: int|
                    0 <= j < dirs0.len() && crate::model::within(
                        old(self).nodes@[0].path@,
                        #[trigger] dirs0[j],
                        p,
                    ),
            crate::report::files_size(crate::sort::views(files@)) <= u64::MAX,
        ensures
            final(self).sound(),
            final(self).nodes@[0].path@ == old(self).nodes@[0].path@,
            final(self).skipped == old(self).skipped,
            final(self).cancelled == old(self).cancelled,
            final(self).disk_total == old(self).disk_total,
            final(self).disk_free == old(self).disk_free,
            forall|i: int|
                0 <= i < final(self).nodes@.len() ==> holds_own(
                    #[trigger] final(self).nodes@[i],
                    old(self).nodes@[0].path@,
                    crate::sort::views(files@),
                ),
            forall|p: Seq<Part>| #[trigger]
                final(self).index@.contains_key(p) <==> crate::model::walked_dir(
                    old(self).nodes@[0].path@,
                    dirs0,
                    crate::sort::views(files@),
                    p,
                ),
            id_sum(
                final(self).nodes@.len(),
                all_weight(final(self).nodes@, crate::model::own_size()),
            ) == crate::report::files_size(crate::sort::views(files@)),
            id_sum(
                final(self).nodes@.len(),
                all_weight(final(self).nodes@, crate::model::own_files()),
            ) == files@.len(),
    {
        let ghost root = self.nodes@[0].path@;
        let ghost files0 = crate::sort::views(files@);
        let ghost raw = files@;
        let total: usize = files.len();
        let mut rest = crate::sort::reversed(files);
        // Files of one directory arrive together, so remembering the last
        // directory saves a lookup per file.
        let mut last: usize = 0;
        proof {
            reveal(Seq::filter);
            assert(files0.take(0) =~= Seq::<FileRec>::empty());
            assert forall|i: int| 0 <= i < self.nodes@.len() implies holds_own(
                #[trigger] self.nodes@[i],
                root,
                files0.take(0),
            ) by {
                assert(crate::sort::views(self.nodes@[i].files@) =~= Seq::<FileRec>::empty());
            }
            let g = |j: int| 0nat;
            lemma_id_sum_grow(0, self.nodes@.len(), g, all_weight(self.nodes@, crate::model::own_size()));
            lemma_id_sum_grow(0, self.nodes@.len(), g, all_weight(self.nodes@, crate::model::own_files()));
        }
        while rest.len() > 0
            invariant
                self.sound(),
                root == self.nodes@[0].path@,
                self.skipped == old(self).skipped,
                self.cancelled == old(self).cancelled,
                self.disk_total == old(self).disk_total,
                self.disk_free == old(self).disk_free,
                files0 == crate::sort::views(raw),
                total == files0.len(),
                rest@.len() <= total,
                rest@ == raw.reverse().take(rest@.len() as int),
                last < self.nodes@.len(),
                crate::report::files_size(files0) <= u64::MAX,
                forall|i: int|
                    0 <= i < self.nodes@.len() ==> holds_own(
                        #[trigger] self.nodes@[i],
                        root,
                        files0.take(total - rest@.len()),
                    ),
                forall|p: Seq<Part>| #[trigger]
                    self.index@.contains_key(p) <==> crate::model::walked_dir(
                        root,
                        dirs0,
                        files0.take(total - rest@.len()),
                        p,
                    ),
                id_sum(self.nodes@.len(), all_weight(self.nodes@, crate::model::own_size()))
                    == crate::report::files_size(files0.take(total - rest@.len())),
                id_sum(self.nodes@.len(), all_weight(self.nodes@, crate::model::own_files()))
                    == total - rest@.len(),
            decreases rest.len(),
        {
            let ghost k = total - rest@.len();
            let ghost seen = files0.take(k);
            let ghost start = *self;
            if let Some(file) = rest.pop() {
                assert(raw.reverse()[rest@.len() as int] == raw[k]);
                assert(file@ == files0[k]);
                let id: usize = if self.nodes[last].path.is_parent_of(&file.path) {
                    last
                } else {
                    match file.path.parent() {
                        Some(p) => self.make_dir(&p),
                        None => 0,
                    }
                };
                last = id;
                let ghost mid = *self;
                let ghost home = crate::model::up(root, file.path@);
                proof {
                    assert(self.nodes@[0] == start.nodes@[0]);
                    assert(self.nodes@[0].live);
                    assert(start.index@.contains_key(root));
                    assert(self.nodes@[id as int].path@ == home);
                    assert(mid.index@.contains_key(home));
                    // A directory made just now holds none of the earlier files.
                    assert forall|i: int| 0 <= i < mid.nodes@.len() implies holds_own(
                        #[trigger] mid.nodes@[i],
                        root,
                        seen,
                    ) by {
                        if i < start.nodes@.len() {
                            assert(mid.nodes@[i] == start.nodes@[i]);
                        } else {
                            lemma_new_dir_empty(start, mid, i, root, dirs0, seen);
                        }
                    }
                    assert forall|p: Seq<Part>| #[trigger]
                        mid.index@.contains_key(p) <==> crate::model::walked_dir(
                            root,
                            dirs0,
                            files0.take(k + 1),
                            p,
                        ) by {
                        lemma_walked_more(root, dirs0, files0, k, p);
                        if start.index@.contains_key(home) && crate::model::within(root, home, p) {
                            lemma_upward(start.nodes@, start.index@, home, p);
                        }
                    }
                    lemma_id_sum_grow(
                        start.nodes@.len(),
                        mid.nodes@.len(),
                        all_weight(start.nodes@, crate::model::own_size()),
                        all_weight(mid.nodes@, crate::model::own_size()),
                    );
                    lemma_id_sum_grow(
                        start.nodes@.len(),
                        mid.nodes@.len(),
                        all_weight(start.nodes@, crate::model::own_files()),
                        all_weight(mid.nodes@, crate::model::own_files()),
                    );
                    lemma_own_bound(mid.nodes@[id as int], root, files0, k);
                }
                let size: u64 = file.size;
                let ghost rec = file@;
                self.nodes[id].size += size;
                self.nodes[id].file_count += 1;
                self.nodes[id].files.push(file);
                proof {
                    assert(self.nodes@[id as int].dir().files =~= mid.nodes@[id as int].dir().files.push(rec));
                    lemma_file_added(mid, *self, id as int, rec, root, files0, k);
                }
            }
        }
        assert(files0.take(total as int) =~= files0);
    }

    /// The id of a directory of the tree.
    pub closed spec fn id_of(&self, p: Seq<Part>) -> Option<usize> {
        if self.index@.contains_key(p) {
            Some(self.index@[p])
        } else {
            None
        }
    }

    /// The directory with an id.
    pub fn dir_at(&self, id: usize) -> (r: Option<&FilePath>)
        requires
            self.wf(),
        ensures
            (match r {
                Some(p) => self@.has_dir(p@) && self.id_of(p@) == Some(id),
                None => forall|p: Seq<Part>| #[trigger] self.id_of(p) != Some(id),
            }),
    {
        proof {
            lemma_model_wf(self.nodes@, self.index@, self@);
        }
        if id < self.nodes.len() && self.nodes[id].live {
            assert(self.nodes@[id as int].live);
            assert(self.index@.contains_key(self.nodes@[id as int].path@));
            Some(&self.nodes[id].path)
        } else {
            assert forall|p: Seq<Part>| #[trigger] self.id_of(p) != Some(id) by {
                if self.index@.contains_key(p) {
                    assert(self.nodes@[self.index@[p] as int].live);
                }
            }
            None
        }
    }

    /// The id of directory `path`, which is added without files (and any missing directories
    /// above it, up to the nearest known one) if the tree does not have it. Where the tree
    /// has it already, nothing changes: asking again gives the same id.
    pub fn ensure_dir(&mut self, path: &FilePath) -> (id: usize)
        requires
            old(self).wf(),
        ensures
            final(self).wf(),
            final(self).id_of(path@) == Some(id),
            old(self)@.is_with_dir(path@, final(self)@),
            old(self)@.has_dir(path@) ==> *final(self) == *old(self),
            forall|p: Seq<Part>| #[trigger]
                old(self)@.has_dir(p) ==> final(self).id_of(p) == old(self).id_of(p),
    {
        let ghost start = *self;
        proof {
            lemma_model_wf(self.nodes@, self.index@, self@);
        }
        if let Some(id) = self.index.get(path) {
            proof {
                assert(self.index@.contains_key(path@));
                assert(start@.dirs =~= start@.dirs.subrange(0, start@.dirs.len() as int));
                assert forall|q: Seq<Part>| #[trigger]
                    start@.has_dir(q) <==> start@.has_dir(q) || crate::model::within(
                        start@.root(),
                        path@,
                        q,
                    ) by {
                    if crate::model::within(start@.root(), path@, q) {
                        lemma_upward(start.nodes@, start.index@, path@, q);
                    }
                    assert(start@.has_dir(q) <==> start.index@.contains_key(q));
                }
            }
            return id;
        }
        assert(!start.index@.contains_key(path@));
        let id: usize = self.make_dir(path);
        let ghost made = *self;
        proof {
            assert(made.nodes@[id as int].live);
            lemma_made(start, made, path@);
        }
        self.recount(path, Ghost(start));
        proof {
            lemma_model_wf(made.nodes@, made.index@, made@);
            assert forall|p: Seq<Part>| #[trigger] start@.has_dir(p) implies self.id_of(p)
                == start.id_of(p) by {
                assert(start.index@.contains_key(p));
                let i = start.index@[p] as int;
                assert(made.nodes@[i] == start.nodes@[i]);
                assert(made.nodes@[i].live);
            }
        }
        id
    }

    /// How many directories lie below one.
    fn count_below(&self, id: usize) -> (r: u64)
        requires
            self.sound(),
            id < self.nodes@.len(),
            self.nodes@[id as int].live,
        ensures
            r == self@.total_dirs(self.nodes@[id as int].path@),
    {
        let ghost d = self.nodes@[id as int].path@;
        let ghost g = crate::model::only_within(
            self.nodes@[0].path@,
            d,
            crate::model::own_dirs(),
        );
        let ghost w = live_weight(self.nodes@, g);
        let marks = self.subtree(id);
        let mut count: u64 = 0;
        let mut j: usize = 0;
        while j < marks.len()
            invariant
                j <= marks.len(),
                marks@.len() == self.nodes@.len(),
                id < self.nodes@.len(),
                d == self.nodes@[id as int].path@,
                g == crate::model::only_within(
                    self.nodes@[0].path@,
                    d,
                    crate::model::own_dirs(),
                ),
                w == live_weight(self.nodes@, g),
                forall|i: int|
                    0 <= i < marks@.len() ==> #[trigger] marks@[i] == in_subtree(
                        self.nodes@,
                        id as int,
                        i,
                    ),
                count <= j,
                count == id_sum(j as nat, w),
                j > id ==> count >= 1,
                self.nodes@[id as int].live,
            decreases marks.len() - j,
        {
            assert(marks@[j as int] == in_subtree(self.nodes@, id as int, j as int));
            assert(w(j as int) == if marks@[j as int] {
                1nat
            } else {
                0
            });
            assert(crate::model::within(self.nodes@[0].path@, d, d));
            if marks[j] {
                count += 1;
            }
            j += 1;
        }
        proof {
            lemma_model_wf(self.nodes@, self.index@, self@);
            lemma_dirs_sum_ids(self.nodes@, g);
        }
        count - 1
    }

    /// After directories without files have been made down to `path`, counts them in
    /// everywhere above.
    fn recount(&mut self, path: &FilePath, Ghost(start): Ghost<ScanTree>)
        requires
            start.wf(),
            old(self).sound(),
            grown_to(start, *old(self), path@),
            old(self)@.root() == start@.root(),
        ensures
            final(self).wf(),
            final(self)@ == old(self)@,
            final(self).index == old(self).index,
    {
        let ghost made = *self;
        let ghost root = self.nodes@[0].path@;
        proof {
            lemma_model_wf(made.nodes@, made.index@, made@);
        }
        let mut k: usize = 0;
        while k < self.nodes.len()
            invariant
                k <= self.nodes@.len(),
                made.sound(),
                self.sound(),
                root == made.nodes@[0].path@,
                self.index == made.index,
                self.skipped == made.skipped,
                self.cancelled == made.cancelled,
                self.disk_total == made.disk_total,
                self.disk_free == made.disk_free,
                self.nodes@.len() == made.nodes@.len(),
                forall|i: int|
                    0 <= i < made.nodes@.len() ==> recounted(
                        #[trigger] self.nodes@[i],
                        made.nodes@[i],
                    ),
                forall|i: int|
                    0 <= i < made.nodes@.len() && (#[trigger] self.nodes@[i]).live ==> if i < k
                        && crate::model::within(root, path@, self.nodes@[i].path@) {
                        self.nodes@[i].dir_count == made@.total_dirs(self.nodes@[i].path@)
                    } else {
                        self.nodes@[i].dir_count == made.nodes@[i].dir_count
                    },
            decreases self.nodes@.len() - k,
        {
            let ghost before = *self;
            assert(recounted(self.nodes@[0], made.nodes@[0]));
            if self.nodes[k].live && lies_within(&self.nodes[0].path, path, &self.nodes[k].path) {
                proof {
                    lemma_same_dirs(before.nodes@, made.nodes@);
                }
                let below: u64 = self.count_below(k);
                self.nodes[k].dir_count = below;
                proof {
                    assert forall|i: int| 0 <= i < made.nodes@.len() implies recounted(
                        #[trigger] self.nodes@[i],
                        made.nodes@[i],
                    ) by {
                        assert(recounted(before.nodes@[i], made.nodes@[i]));
                    }
                    lemma_same_links(made, *self);
                    assert forall|i: int|
                        0 <= i < made.nodes@.len() && (#[trigger] self.nodes@[i]).live implies if i
                        < k + 1 && crate::model::within(root, path@, self.nodes@[i].path@) {
                        self.nodes@[i].dir_count == made@.total_dirs(self.nodes@[i].path@)
                    } else {
                        self.nodes@[i].dir_count == made.nodes@[i].dir_count
                    } by {
                        assert(before.nodes@[i].live);
                    }
                }
            }
            k += 1;
        }
        proof {
            lemma_same_dirs(self.nodes@, made.nodes@);
            assert(self@ == made@);
            assert forall|i: int| 0 <= i < self.nodes@.len() && (#[trigger] self.nodes@[i]).live implies {
                &&& self.nodes@[i].size == self@.total_size(self.nodes@[i].path@)
                &&& self.nodes@[i].file_count == self@.total_files(self.nodes@[i].path@)
                &&& self.nodes@[i].dir_count == self@.total_dirs(self.nodes@[i].path@)
            } by {
                assert(recounted(self.nodes@[i], made.nodes@[i]));
                lemma_grown_totals(start, made, path@, i);
            }
        }
    }

    /// The directory this tree was built from.
    pub fn root(&self) -> (r: &FilePath)
        requires
            self.wf(),
        ensures
            r@ == self@.root(),
    {
        proof {
            lemma_model_wf(self.nodes@, self.index@, self@);
        }
        &self.nodes[0].path
    }

    /// Whether `path` is a directory in this tree (the root included).
    pub fn contains(&self, path: &FilePath) -> (r: bool)
        requires
            self.wf(),
        ensures
            r == self@.has_dir(path@),
    {
        proof {
            lemma_model_wf(self.nodes@, self.index@, self@);
        }
        let r: bool = self.index.get(path).is_some();
        assert(r == self.index@.contains_key(path@));
        r
    }

    /// True if the walk was cancelled; the tree then covers only what was seen.
    pub fn cancelled(&self) -> (r: bool)
        ensures
            r == self@.cancelled,
    {
        self.cancelled
    }

    /// Records the filesystem's total and free bytes anew (e.g. after deleting files).
    pub fn refresh_disk_space(&mut self, disk: (u64, u64))
        requires
            old(self).wf(),
        ensures
            final(self).wf(),
            final(self)@ == (TreeModel { disk_total: disk.0, disk_free: disk.1, ..old(self)@ }),
    {
        self.disk_total = disk.0;
        self.disk_free = disk.1;
    }

    /// Report for the root: the same shape a fresh scan returns.
    pub fn root_report(&self, top_n: usize) -> (r: ScanReport)
        requires
            self.wf(),
        ensures
            self@.is_report(self@.root(), top_n as nat, r),
    {
        proof {
            lemma_model_wf(self.nodes@, self.index@, self@);
        }
        self.report_of(0, top_n)
    }

    /// Report for `path` (the root or any directory below it) as if that
    /// directory had been scanned on its own. `None` if it is not in the tree.
    pub fn report(&self, path: &FilePath, top_n: usize) -> (r: Option<ScanReport>)
        requires
            self.wf(),
        ensures
            (match r {
                Some(report) => self@.has_dir(path@) && self@.is_report(
                    path@,
                    top_n as nat,
                    report,
                ),
                None => !self@.has_dir(path@),
            }),
    {
        proof {
            lemma_model_wf(self.nodes@, self.index@, self@);
        }
        match self.index.get(path) {
            Some(id) => Some(self.report_of(id, top_n)),
            None => {
                assert(!self.index@.contains_key(path@));
                None
            },
        }
    }

    /// Marks the ids whose directories lie at or below that of `id`.
    fn subtree(&self, id: usize) -> (marks: Vec<bool>)
        requires
            self.sound(),
            id < self.nodes@.len(),
            self.nodes@[id as int].live,
        ensures
            marks@.len() == self.nodes@.len(),
            forall|j: int|
                0 <= j < marks@.len() ==> #[trigger] marks@[j] == in_subtree(
                    self.nodes@,
                    id as int,
                    j,
                ),
    {
        let mut marks: Vec<bool> = Vec::new();
        let mut j: usize = 0;
        while j < self.nodes.len()
            invariant
                j <= self.nodes@.len(),
                self.sound(),
                id < self.nodes@.len(),
                self.nodes@[id as int].live,
                marks@.len() == j,
                forall|i: int|
                    0 <= i < j ==> #[trigger] marks@[i] == in_subtree(self.nodes@, id as int, i),
            decreases self.nodes@.len() - j,
        {
            assert(self.nodes@[0].live);
            let m: bool = if !self.nodes[j].live {
                false
            } else if j == id {
                true
            } else {
                match self.nodes[j].parent {
                    Some(p) => {
                        assert(j != 0);
                        assert(self.nodes@[j as int].parent->0 < j);
                        marks[p]
                    },
                    None => {
                        assert(j == 0);
                        false
                    },
                }
            };
            marks.push(m);
            j += 1;
        }
        marks
    }

    fn report_of(&self, id: usize, top_n: usize) -> (r: ScanReport)
        requires
            self.wf(),
            id < self.nodes@.len(),
            self.nodes@[id as int].live,
        ensures
            self@.is_report(self.nodes@[id as int].path@, top_n as nat, r),
    {
        let ghost d = self.nodes@[id as int].path@;
        let ghost root = self.nodes@[0].path@;
        let ghost m = self@;
        proof {
            lemma_model_wf(self.nodes@, self.index@, m);
            lemma_files_of(self.nodes@, self.index@, m, id as int);
        }
        let kids = self.kids(id);
        let children = crate::report::top_dirs(kids, top_n);
        let node = &self.nodes[id];
        let root_files_size: u64 = self.own_bytes(id);
        let root_files_count: u64 = node.files.len() as u64;
        let marks = self.subtree(id);
        let mut all: Vec<&FileEntry> = Vec::new();
        let mut j: usize = 0;
        assert(self.nodes@.take(0).len() == 0);
        while j < self.nodes.len()
            invariant
                j <= self.nodes@.len(),
                self.sound(),
                id < self.nodes@.len(),
                self.nodes@[id as int].live,
                d == self.nodes@[id as int].path@,
                root == self.nodes@[0].path@,
                marks@.len() == self.nodes@.len(),
                forall|i: int|
                    0 <= i < marks@.len() ==> #[trigger] marks@[i] == in_subtree(
                        self.nodes@,
                        id as int,
                        i,
                    ),
                crate::sort::views(all@) == crate::model::files_within(
                    root,
                    dir_nodes(self.nodes@.take(j as int)),
                    d,
                ),
            decreases self.nodes@.len() - j,
        {
            let ghost before = crate::sort::views(all@);
            let ghost dirs = dir_nodes(self.nodes@.take(j as int));
            assert(self.nodes@.take(j + 1).drop_last() =~= self.nodes@.take(j as int));
            assert(dirs.push(self.nodes@[j as int].dir()).drop_last() =~= dirs);
            if marks[j] {
                let files = &self.nodes[j].files;
                let mut k: usize = 0;
                while k < files.len()
                    invariant
                        k <= files@.len(),
                        crate::sort::views(all@) =~= before + crate::sort::views(files@).take(
                            k as int,
                        ),
                    decreases files@.len() - k,
                {
                    let ghost prev = crate::sort::views(all@);
                    all.push(&files[k]);
                    assert(crate::sort::views(all@) =~= prev.push(files@[k as int]@));
                    k += 1;
                }
                assert(crate::sort::views(all@) =~= before + self.nodes@[j as int].dir().files);
            }
            j += 1;
        }
        assert(self.nodes@.take(j as int) =~= self.nodes@);
        let top_files = crate::report::largest_files(all, top_n);
        ScanReport {
            root: node.path.clone(),
            total_size: node.size,
            total_files: node.file_count,
            total_dirs: node.dir_count,
            skipped: self.skipped_below(id),
            children,
            root_files_size,
            root_files_count,
            top_files,
            disk_total: self.disk_total,
            disk_free: self.disk_free,
            cancelled: self.cancelled,
        }
    }

    /// How many entries in a directory and everything below it could not be read.
    fn skipped_below(&self, id: usize) -> (r: u64)
        requires
            self.sound(),
            id < self.nodes@.len(),
        ensures
            r == crate::sort::views(self.skipped@).filter(
                crate::model::within_dir(self.nodes@[0].path@, self.nodes@[id as int].path@),
            ).len(),
    {
        let root = &self.nodes[0].path;
        let d = &self.nodes[id].path;
        let ghost all = crate::sort::views(self.skipped@);
        let ghost keep = crate::model::within_dir(root@, d@);
        let mut count: u64 = 0;
        let mut k: usize = 0;
        proof {
            reveal(Seq::filter);
            assert(all.take(0) =~= Seq::<Seq<Part>>::empty());
        }
        while k < self.skipped.len()
            invariant
                k <= self.skipped.len(),
                all == crate::sort::views(self.skipped@),
                keep == crate::model::within_dir(root@, d@),
                count <= k,
                count == all.take(k as int).filter(keep).len(),
            decreases self.skipped.len() - k,
        {
            proof {
                reveal(Seq::filter);
                assert(all.take(k + 1).drop_last() =~= all.take(k as int));
                assert(all.take(k + 1).last() == self.skipped@[k as int]@);
            }
            if lies_within(root, &self.skipped[k], d) {
                count += 1;
            }
            k += 1;
        }
        assert(all.take(k as int) =~= all);
        count
    }

    /// The immediate sub-folders of a directory.
    fn kids(&self, id: usize) -> (kids: Vec<DirSize>)
        requires
            self.wf(),
            id < self.nodes@.len(),
            self.nodes@[id as int].live,
        ensures
            crate::sort::views(kids@) == self@.children(self.nodes@[id as int].path@),
    {
        let ghost d = self.nodes@[id as int].path@;
        let ghost m = self@;
        let ghost keep = crate::model::child_of(m.root(), d);
        proof {
            reveal(Seq::filter);
            lemma_model_wf(self.nodes@, self.index@, m);
        }
        let mut kids: Vec<DirSize> = Vec::new();
        let mut j: usize = 0;
        assert(self.nodes@.take(0).len() == 0);
        assert(crate::sort::views(kids@) =~= m.dir_recs(dir_nodes(self.nodes@.take(0)).filter(keep)));
        while j < self.nodes.len()
            invariant
                j <= self.nodes@.len(),
                self.wf(),
                m == self@,
                m.root() == self.nodes@[0].path@,
                id < self.nodes@.len(),
                self.nodes@[id as int].live,
                d == self.nodes@[id as int].path@,
                keep == crate::model::child_of(m.root(), d),
                crate::sort::views(kids@) == m.dir_recs(
                    dir_nodes(self.nodes@.take(j as int)).filter(keep),
                ),
            decreases self.nodes@.len() - j,
        {
            let ghost dirs = dir_nodes(self.nodes@.take(j as int));
            let ghost was = crate::sort::views(kids@);
            proof {
                reveal(Seq::filter);
                assert(self.nodes@.take(j + 1).drop_last() =~= self.nodes@.take(j as int));
                assert(dirs.push(self.nodes@[j as int].dir()).drop_last() =~= dirs);
                assert(self.nodes@[0].live);
            }
            let n = &self.nodes[j];
            let is_kid: bool = match n.parent {
                Some(p) => n.live && p == id,
                None => false,
            };
            assert(n.live ==> is_kid == keep(n.dir())) by {
                if n.live {
                    assert(self.nodes@[j as int].live);
                    if j > 0 {
                        assert(self.nodes@[n.parent->0 as int].live);
                    }
                }
            }
            if is_kid {
                kids.push(
                    DirSize { path: n.path.clone(), size: n.size, file_count: n.file_count },
                );
                assert(crate::sort::views(kids@) =~= was.push(m.dir_rec(n.path@)));
                assert(m.dir_recs(dirs.filter(keep).push(n.dir())) =~= m.dir_recs(
                    dirs.filter(keep),
                ).push(m.dir_rec(n.path@)));
            }
            j += 1;
        }
        assert(self.nodes@.take(j as int) =~= self.nodes@);
        kids
    }

    /// The bytes of the files directly in a directory.
    fn own_bytes(&self, id: usize) -> (total: u64)
        requires
            self.wf(),
            id < self.nodes@.len(),
            self.nodes@[id as int].live,
        ensures
            total == crate::report::files_size(self.nodes@[id as int].dir().files),
    {
        let ghost own = self.nodes@[id as int].dir().files;
        proof {
            lemma_model_wf(self.nodes@, self.index@, self@);
            lemma_place(self.nodes@, id as int);
            let d = self.nodes@[id as int].path@;
            let g = crate::model::only_within(self@.root(), d, crate::model::own_size());
            lemma_sum_member(self@.dirs, g, place(self.nodes@, id as int));
            assert(crate::model::within(self@.root(), d, d));
        }
        let files = &self.nodes[id].files;
        let mut total: u64 = 0;
        let mut k: usize = 0;
        while k < files.len()
            invariant
                k <= files@.len(),
                own == crate::sort::views(files@),
                crate::report::files_size(own) <= u64::MAX,
                total == crate::report::files_size(own.take(k as int)),
            decreases files@.len() - k,
        {
            proof {
                crate::report::lemma_files_size_take(own, k + 1);
                assert(own.take(k + 1).drop_last() =~= own.take(k as int));
            }
            total += files[k].size;
            k += 1;
        }
        assert(own.take(k as int) =~= own);
        total
    }

    /// Every directory below the root with its subtree totals, sorted by path.
    /// The root itself is not included.
    pub fn dir_sizes(&self) -> (r: Vec<DirSize>)
        requires
            self.wf(),
        ensures
            crate::sort::sorted_by(crate::sort::views(r@), crate::report::earlier_dir()),
            crate::sort::views(r@).to_multiset() == self@.dir_recs(
                self@.dirs.drop_first(),
            ).to_multiset(),
    {
        let ghost m = self@;
        proof {
            lemma_model_wf(self.nodes@, self.index@, m);
        }
        let mut dirs: Vec<DirSize> = Vec::new();
        let mut j: usize = 1;
        proof {
            assert(self.nodes@.take(1).drop_last() =~= self.nodes@.take(0));
            assert(self.nodes@.take(0).len() == 0);
            reveal_with_fuel(dir_nodes, 2);
            assert(self.nodes@.take(1).last() == self.nodes@[0]);
            assert(dir_nodes(self.nodes@.take(1)) =~= seq![self.nodes@[0].dir()]);
            assert(crate::sort::views(dirs@) =~= m.dir_recs(
                dir_nodes(self.nodes@.take(1)).drop_first(),
            ));
        }
        while j < self.nodes.len()
            invariant
                1 <= j <= self.nodes@.len(),
                self.wf(),
                m == self@,
                dir_nodes(self.nodes@.take(j as int)).len() > 0,
                crate::sort::views(dirs@) == m.dir_recs(
                    dir_nodes(self.nodes@.take(j as int)).drop_first(),
                ),
            decreases self.nodes@.len() - j,
        {
            let ghost so_far = dir_nodes(self.nodes@.take(j as int));
            let ghost was = crate::sort::views(dirs@);
            assert(self.nodes@.take(j + 1).drop_last() =~= self.nodes@.take(j as int));
            let n = &self.nodes[j];
            if n.live {
                dirs.push(
                    DirSize { path: n.path.clone(), size: n.size, file_count: n.file_count },
                );
                proof {
                    assert(self.nodes@[j as int].live);
                    assert(crate::sort::views(dirs@) =~= was.push(m.dir_rec(n.path@)));
                    assert(so_far.push(n.dir()).drop_first() =~= so_far.drop_first().push(n.dir()));
                    assert(m.dir_recs(so_far.drop_first().push(n.dir())) =~= m.dir_recs(
                        so_far.drop_first(),
                    ).push(m.dir_rec(n.path@)));
                }
            }
            j += 1;
        }
        assert(self.nodes@.take(j as int) =~= self.nodes@);
        crate::report::by_path(dirs)
    }

    /// Drop a directory (with everything below it) or a single file from the
    /// tree, adjusting every ancestor's totals: what a UI does after deleting
    /// the path on disk, instead of re-walking. The root cannot be removed.
    /// Returns `false` if the path is not in the tree.
    pub fn remove(&mut self, path: &FilePath) -> (removed: bool)
        requires
            old(self).wf(),
        ensures
            final(self).wf(),
            removed == old(self)@.removable(path@),
            final(self)@ == old(self)@.without(path@),
    {
        proof {
            lemma_model_wf(self.nodes@, self.index@, self@);
        }
        match self.index.get(path) {
            Some(id) => {
                assert(self.index@.contains_key(path@));
                if id == 0 {
                    return false;
                }
                self.remove_dir(id);
                true
            },
            None => {
                assert(!self.index@.contains_key(path@));
                match path.parent() {
                    None => false,
                    Some(parent) => match self.index.get(&parent) {
                        None => {
                            assert(!self.index@.contains_key(parent@));
                            false
                        },
                        Some(pid) => {
                            assert(self.index@.contains_key(parent@));
                            self.remove_file(pid, path)
                        },
                    },
                }
            },
        }
    }

    /// Takes a directory other than the root out of the tree.
    fn remove_dir(&mut self, id: usize)
        requires
            old(self).wf(),
            0 < id < old(self).nodes@.len(),
            old(self).nodes@[id as int].live,
        ensures
            final(self).wf(),
            final(self)@ == old(self)@.without_dir(old(self).nodes@[id as int].path@),
    {
        let ghost start = *self;
        let ghost p = self.nodes@[id as int].path@;
        let ghost root = self.nodes@[0].path@;
        let size: u64 = self.nodes[id].size;
        let files: u64 = self.nodes[id].file_count;
        proof {
            lemma_model_wf(self.nodes@, self.index@, self@);
            lemma_dirs_bound(*self, id as int);
            assert(self.nodes@[0].live);
        }
        let dirs: u64 = self.nodes[id].dir_count + 1;
        self.cut_out(id);
        let ghost mid = *self;
        proof {
            lemma_cut(start, mid, id as int);
            lemma_parent_kept(start, mid, id as int);
        }
        if let Some(q) = self.nodes[id].parent {
            self.subtract(q, size, files, dirs);
            proof {
                lemma_dir_removed(start, mid, *self, id as int, q as int);
            }
        }
    }

    /// Takes a directory and everything below it out of the index and marks their
    /// slots as unused.
    fn cut_out(&mut self, id: usize)
        requires
            old(self).sound(),
            id < old(self).nodes@.len(),
            old(self).nodes@[id as int].live,
        ensures
            final(self).index.wf(),
            final(self).nodes@.len() == old(self).nodes@.len(),
            final(self).skipped == old(self).skipped,
            final(self).cancelled == old(self).cancelled,
            final(self).disk_total == old(self).disk_total,
            final(self).disk_free == old(self).disk_free,
            forall|i: int|
                0 <= i < old(self).nodes@.len() ==> cut(
                    #[trigger] final(self).nodes@[i],
                    old(self).nodes@[i],
                    in_subtree(old(self).nodes@, id as int, i),
                ),
            forall|q: Seq<Part>| #[trigger]
                final(self).index@.contains_key(q) <==> old(self).index@.contains_key(q) && !(
                old(self).index@[q] < old(self).nodes@.len() && crate::model::within(
                    old(self).nodes@[0].path@,
                    q,
                    old(self).nodes@[id as int].path@,
                )),
            forall|q: Seq<Part>| #[trigger]
                final(self).index@.contains_key(q) ==> final(self).index@[q] == old(self).index@[q],
    {
        let ghost start = *self;
        let ghost p = self.nodes@[id as int].path@;
        let ghost root = self.nodes@[0].path@;
        let marks = self.subtree(id);
        let mut j: usize = 0;
        while j < self.nodes.len()
            invariant
                j <= self.nodes@.len(),
                start.sound(),
                self.index.wf(),
                self.nodes@.len() == start.nodes@.len(),
                marks@.len() == start.nodes@.len(),
                id < start.nodes@.len(),
                p == start.nodes@[id as int].path@,
                root == start.nodes@[0].path@,
                self.skipped == start.skipped,
                self.cancelled == start.cancelled,
                self.disk_total == start.disk_total,
                self.disk_free == start.disk_free,
                forall|i: int|
                    0 <= i < marks@.len() ==> #[trigger] marks@[i] == in_subtree(
                        start.nodes@,
                        id as int,
                        i,
                    ),
                forall|i: int|
                    0 <= i < self.nodes@.len() ==> cut(
                        #[trigger] self.nodes@[i],
                        start.nodes@[i],
                        i < j && in_subtree(start.nodes@, id as int, i),
                    ),
                forall|q: Seq<Part>| #[trigger]
                    self.index@.contains_key(q) <==> start.index@.contains_key(q) && !(
                    start.index@[q] < j && crate::model::within(root, q, p)),
                forall|q: Seq<Part>| #[trigger]
                    self.index@.contains_key(q) ==> self.index@[q] == start.index@[q],
            decreases self.nodes@.len() - j,
        {
            let ghost before = *self;
            if marks[j] {
                assert(cut(self.nodes@[j as int], start.nodes@[j as int], false));
                assert(start.nodes@[j as int].live);
                self.index.remove(&self.nodes[j].path);
                self.nodes[j].live = false;
                self.nodes[j].files = Vec::new();
            }
            proof {
                let q0 = start.nodes@[j as int].path@;
                assert forall|i: int| 0 <= i < self.nodes@.len() implies cut(
                    #[trigger] self.nodes@[i],
                    start.nodes@[i],
                    i < j + 1 && in_subtree(start.nodes@, id as int, i),
                ) by {
                    assert(cut(
                        before.nodes@[i],
                        start.nodes@[i],
                        i < j && in_subtree(start.nodes@, id as int, i),
                    ));
                }
                assert forall|q: Seq<Part>| #[trigger]
                    self.index@.contains_key(q) <==> start.index@.contains_key(q) && !(
                    start.index@[q] < j + 1 && crate::model::within(root, q, p)) by {
                    assert(before.index@.contains_key(q) <==> start.index@.contains_key(q) && !(
                    start.index@[q] < j && crate::model::within(root, q, p)));
                    if start.index@.contains_key(q) && start.index@[q] == j {
                        assert(q == q0);
                        assert(start.nodes@[j as int].live);
                    }
                    if marks@[j as int] {
                        assert(start.index@[q0] == j);
                    }
                }
                assert forall|q: Seq<Part>| #[trigger] self.index@.contains_key(q) implies self.index@[q]
                    == start.index@[q] by {
                    assert(before.index@.contains_key(q));
                }
            }
            j += 1;
        }
    }

    /// Takes the first file with the given path out of a directory, if there is one.
    fn remove_file(&mut self, pid: usize, path: &FilePath) -> (removed: bool)
        requires
            old(self).wf(),
            pid < old(self).nodes@.len(),
            old(self).nodes@[pid as int].live,
        ensures
            final(self).wf(),
            removed == crate::model::names_file(
                old(self)@.files_of(old(self).nodes@[pid as int].path@),
                path@,
            ),
            removed ==> final(self)@ == old(self)@.without_file(
                old(self).nodes@[pid as int].path@,
                path@,
            ),
            !removed ==> *final(self) == *old(self),
    {
        let ghost start = *self;
        let ghost q = self.nodes@[pid as int].path@;
        let ghost own = self.nodes@[pid as int].dir().files;
        proof {
            lemma_model_wf(self.nodes@, self.index@, self@);
            lemma_files_of(self.nodes@, self.index@, self@, pid as int);
        }
        let mut k: usize = 0;
        while k < self.nodes[pid].files.len() && !self.nodes[pid].files[k].path.same(path)
            invariant
                *self == start,
                pid < self.nodes@.len(),
                own == crate::sort::views(self.nodes@[pid as int].files@),
                k <= own.len(),
                forall|i: int| 0 <= i < k ==> (#[trigger] own[i]).path != path@,
            decreases own.len() - k,
        {
            assert(own[k as int] == self.nodes@[pid as int].files@[k as int]@);
            k += 1;
        }
        if k == self.nodes[pid].files.len() {
            return false;
        }
        assert(own[k as int].path == path@);
        proof {
            assert(crate::model::is_first_file(own, path@, k as int));
            crate::model::lemma_first_file_is(own, path@, k as int);
        }
        let file = self.nodes[pid].files.remove(k);
        assert(file@ == own[k as int]);
        assert(self.nodes@[pid as int].dir().files =~= own.remove(k as int));
        let ghost mid = *self;
        proof {
            lemma_same_links(start, mid);
        }
        self.subtract(pid, file.size, 1, 0);
        proof {
            lemma_file_removed(start, mid, *self, pid as int, path@, k as int);
        }
        true
    }

    /// Subtract totals from `id` and every ancestor up to the root.
    fn subtract(&mut self, id: usize, size: u64, files: u64, dirs: u64)
        requires
            old(self).sound(),
            id < old(self).nodes@.len(),
            old(self).nodes@[id as int].live,
        ensures
            final(self).sound(),
            final(self).index == old(self).index,
            final(self).skipped == old(self).skipped,
            final(self).cancelled == old(self).cancelled,
            final(self).disk_total == old(self).disk_total,
            final(self).disk_free == old(self).disk_free,
            final(self).nodes@.len() == old(self).nodes@.len(),
            forall|i: int|
                0 <= i < old(self).nodes@.len() ==> lessened(
                    #[trigger] final(self).nodes@[i],
                    old(self).nodes@[i],
                    old(self).nodes@[i].live && crate::model::within(
                        old(self).nodes@[0].path@,
                        old(self).nodes@[id as int].path@,
                        old(self).nodes@[i].path@,
                    ),
                    size,
                    files,
                    dirs,
                ),
    {
        let ghost start = *self;
        let ghost root = self.nodes@[0].path@;
        let ghost p = self.nodes@[id as int].path@;
        let mut cur: usize = id;
        let mut done: bool = false;
        assert(crate::model::within(root, p, p));
        proof {
            assert forall|i: int| 0 <= i < start.nodes@.len() implies lessened(
                #[trigger] self.nodes@[i],
                start.nodes@[i],
                start.nodes@[i].live && i > id && crate::model::within(root, p, start.nodes@[i].path@),
                size,
                files,
                dirs,
            ) by {
                if start.nodes@[i].live && crate::model::within(root, p, start.nodes@[i].path@) {
                    lemma_above_earlier(start.nodes@, start.index@, id as int, i);
                }
            }
        }
        while !done
            invariant
                start.sound(),
                id < start.nodes@.len(),
                start.nodes@[id as int].live,
                root == start.nodes@[0].path@,
                p == start.nodes@[id as int].path@,
                self.index == start.index,
                self.skipped == start.skipped,
                self.cancelled == start.cancelled,
                self.disk_total == start.disk_total,
                self.disk_free == start.disk_free,
                self.nodes@.len() == start.nodes@.len(),
                cur < start.nodes@.len(),
                start.nodes@[cur as int].live,
                crate::model::within(root, p, start.nodes@[cur as int].path@),
                done ==> cur == 0,
                forall|i: int|
                    0 <= i < start.nodes@.len() ==> lessened(
                        #[trigger] self.nodes@[i],
                        start.nodes@[i],
                        start.nodes@[i].live && (i > cur || done) && crate::model::within(
                            root,
                            p,
                            start.nodes@[i].path@,
                        ),
                        size,
                        files,
                        dirs,
                    ),
            decreases cur,
                if done {
                    0int
                } else {
                    1int
                },
        {
            let ghost before = *self;
            let ghost at = cur as int;
            assert(lessened(
                self.nodes@[cur as int],
                start.nodes@[cur as int],
                false,
                size,
                files,
                dirs,
            ));
            self.nodes[cur].size = self.nodes[cur].size.saturating_sub(size);
            self.nodes[cur].file_count = self.nodes[cur].file_count.saturating_sub(files);
            self.nodes[cur].dir_count = self.nodes[cur].dir_count.saturating_sub(dirs);
            match self.nodes[cur].parent {
                Some(up) => {
                    assert(cur != 0);
                    assert(start.nodes@[at].parent->0 < at);
                    cur = up;
                    proof {
                        let here = start.nodes@[at].path@;
                        let above = start.nodes@[up as int].path@;
                        assert(start.nodes@[0].live && start.nodes@[up as int].live);
                        assert(here != root);
                        assert(above == crate::model::up(root, here));
                        assert(crate::model::within(root, above, above));
                        assert(crate::model::within(root, here, above));
                        crate::model::lemma_within_trans(root, p, here, above);
                        assert forall|i: int| 0 <= i < start.nodes@.len() implies lessened(
                            #[trigger] self.nodes@[i],
                            start.nodes@[i],
                            start.nodes@[i].live && i > up && crate::model::within(
                                root,
                                p,
                                start.nodes@[i].path@,
                            ),
                            size,
                            files,
                            dirs,
                        ) by {
                            assert(lessened(
                                before.nodes@[i],
                                start.nodes@[i],
                                start.nodes@[i].live && i > at && crate::model::within(
                                    root,
                                    p,
                                    start.nodes@[i].path@,
                                ),
                                size,
                                files,
                                dirs,
                            ));
                            if i != at && start.nodes@[i].live && crate::model::within(
                                root,
                                p,
                                start.nodes@[i].path@,
                            ) && up < i < at {
                                lemma_none_between(start.nodes@, start.index@, p, at, i);
                            }
                        }
                    }
                },
                None => {
                    assert(cur == 0);
                    done = true;
                    proof {
                        assert forall|i: int| 0 <= i < start.nodes@.len() implies lessened(
                            #[trigger] self.nodes@[i],
                            start.nodes@[i],
                            start.nodes@[i].live && crate::model::within(
                                root,
                                p,
                                start.nodes@[i].path@,
                            ),
                            size,
                            files,
                            dirs,
                        ) by {
                            assert(lessened(
                                before.nodes@[i],
                                start.nodes@[i],
                                start.nodes@[i].live && i > at && crate::model::within(
                                    root,
                                    p,
                                    start.nodes@[i].path@,
                                ),
                                size,
                                files,
                                dirs,
                            ));
                        }
                    }
                },
            }
        }
        proof {
            lemma_same_links(start, *self);
        }
    }

    /// Adds every directory's totals to those above it. A child is always created
    /// after its parent, so walking the arena backwards visits every node before
    /// its parent.
    fn roll_up(&mut self)
        requires
            old(self).sound(),
            forall|i: int|
                0 <= i < old(self).nodes@.len() ==> (#[trigger] old(self).nodes@[i]).live
                    && old(self).nodes@[i].size == crate::report::files_size(
                    old(self).nodes@[i].dir().files,
                ) && old(self).nodes@[i].file_count == old(self).nodes@[i].files@.len()
                    && old(self).nodes@[i].dir_count == 0,
            id_sum(
                old(self).nodes@.len(),
                all_weight(old(self).nodes@, crate::model::own_size()),
            ) <= u64::MAX,
            id_sum(
                old(self).nodes@.len(),
                all_weight(old(self).nodes@, crate::model::own_files()),
            ) <= u64::MAX,
        ensures
            final(self).wf(),
            final(self).index@ == old(self).index@,
            dir_nodes(final(self).nodes@) == dir_nodes(old(self).nodes@),
            final(self).nodes@.len() == old(self).nodes@.len(),
            forall|i: int|
                0 <= i < old(self).nodes@.len() ==> (#[trigger] final(self).nodes@[i]).dir() == old(self).nodes@[i].dir() && final(self).nodes@[i].live,
            final(self).skipped == old(self).skipped,
            final(self).cancelled == old(self).cancelled,
            final(self).disk_total == old(self).disk_total,
            final(self).disk_free == old(self).disk_free,
    {
        let ghost start = self.nodes@;
        let n: usize = self.nodes.len();
        proof {
            assert forall|k: int| 0 <= k < n implies carries(#[trigger] self.nodes@[k], start, k, n as int) by {
                lemma_flow_start(start, k, crate::model::own_size());
                lemma_flow_start(start, k, crate::model::own_files());
                lemma_flow_start(start, k, crate::model::own_dirs());
            }
        }
        proof {
            lemma_id_sum_ones(n as nat, all_weight(start, crate::model::own_dirs()));
        }
        let mut id: usize = n;
        while id > 1
            invariant
                1 <= id <= n,
                n == start.len(),
                start == old(self).nodes@,
                parents_first(start),
                n == self.nodes@.len(),
                self.index == old(self).index,
                self.skipped == old(self).skipped,
                self.cancelled == old(self).cancelled,
                self.disk_total == old(self).disk_total,
                self.disk_free == old(self).disk_free,
                id_sum(n as nat, all_weight(start, crate::model::own_size())) <= u64::MAX,
                id_sum(n as nat, all_weight(start, crate::model::own_files())) <= u64::MAX,
                id_sum(n as nat, all_weight(start, crate::model::own_dirs())) == n,
                forall|k: int| 0 <= k < n ==> carries(#[trigger] self.nodes@[k], start, k, id as int),
            decreases id,
        {
            id -= 1;
            let ghost before = self.nodes@;
            let size: u64 = self.nodes[id].size;
            let files: u64 = self.nodes[id].file_count;
            assert(carries(self.nodes@[id as int], start, id as int, id + 1));
            proof {
                lemma_flow_bound(start, id as int, id + 1, crate::model::own_dirs());
            }
            let dirs: u64 = self.nodes[id].dir_count + 1;
            if let Some(p) = self.nodes[id].parent {
                assert(start[id as int].parent == Some(p));
                assert(carries(self.nodes@[p as int], start, p as int, id + 1));
                proof {
                    lemma_flow_step(start, p as int, id as int, crate::model::own_size());
                    lemma_flow_step(start, p as int, id as int, crate::model::own_files());
                    lemma_flow_step(start, p as int, id as int, crate::model::own_dirs());
                    lemma_flow_bound(start, p as int, id as int, crate::model::own_size());
                    lemma_flow_bound(start, p as int, id as int, crate::model::own_files());
                    lemma_flow_bound(start, p as int, id as int, crate::model::own_dirs());
                }
                self.nodes[p].size += size;
                self.nodes[p].file_count += files;
                self.nodes[p].dir_count += dirs;
                proof {
                    assert forall|k: int| 0 <= k < n implies carries(
                        #[trigger] self.nodes@[k],
                        start,
                        k,
                        id as int,
                    ) by {
                        assert(carries(before[k], start, k, id + 1));
                        lemma_flow_step(start, k, id as int, crate::model::own_size());
                        lemma_flow_step(start, k, id as int, crate::model::own_files());
                        lemma_flow_step(start, k, id as int, crate::model::own_dirs());
                    }
                }
            }
        }
        proof {
            lemma_rolled_up(start, *self);
        }
    }

    /// Node id of `path`, creating it (and any missing ancestors up to the
    /// nearest known one) if needed. Every node is inserted after its parent.
    fn make_dir(&mut self, path: &FilePath) -> (id: usize)
        requires
            old(self).sound(),
        ensures
            final(self).sound(),
            id < final(self).nodes@.len(),
            final(self).nodes@[id as int].live,
            final(self).nodes@[id as int].path@ == path@,
            old(self).nodes@.len() <= final(self).nodes@.len(),
            forall|i: int|
                0 <= i < old(self).nodes@.len() ==> #[trigger] final(self).nodes@[i] == old(self).nodes@[i],
            forall|i: int|
                old(self).nodes@.len() <= i < final(self).nodes@.len() ==> (#[trigger] final(self).nodes@[i]).fresh(),
            forall|p: Seq<Part>| #[trigger]
                final(self).index@.contains_key(p) <==> old(self).index@.contains_key(p)
                    || crate::model::within(old(self).nodes@[0].path@, path@, p),
            final(self).skipped == old(self).skipped,
            final(self).cancelled == old(self).cancelled,
            final(self).disk_total == old(self).disk_total,
            final(self).disk_free == old(self).disk_free,
        decreases path@.len(),
    {
        let ghost root = self.nodes@[0].path@;
        if let Some(id) = self.index.get(path) {
            proof {
                assert forall|p: Seq<Part>| crate::model::within(root, path@, p) implies #[trigger]
                    self.index@.contains_key(p) by {
                    lemma_upward(self.nodes@, self.index@, path@, p);
                }
            }
            return id;
        }
        assert(self.nodes@[0].live);
        assert(path@ != root);
        let parent: usize = match path.parent() {
            Some(p) => self.make_dir(&p),
            // Ran past every known ancestor: hang the chain off the root.
            None => 0,
        };
        let ghost mid = *self;
        proof {
            if crate::path::parent_of(path@) is Some {
                let q = crate::path::parent_of(path@)->0;
                assert(q.len() < path@.len());
                if crate::model::within(root, q, path@) {
                    lemma_not_above(root, q, path@);
                }
            }
            assert(!mid.index@.contains_key(path@));
        }
        let id: usize = self.nodes.len();
        self.nodes.push(Node::new(path.clone(), Some(parent)));
        self.index.insert(path.clone(), id);
        proof {
            assert(mid.nodes@[0].path@ == root);
            assert(self.nodes@[0] == mid.nodes@[0]);
            assert(mid.nodes@[parent as int].live);
            assert(mid.nodes@[parent as int].path@ == crate::model::up(root, path@));
            assert forall|i: int| 0 <= i < self.nodes@.len() && (#[trigger] self.nodes@[i]).live implies
                self.index@.contains_key(self.nodes@[i].path@) && self.index@[self.nodes@[i].path@]
                == i by {
                if i < id {
                    assert(self.nodes@[i] == mid.nodes@[i]);
                }
            }
            assert forall|p: Seq<Part>| #[trigger] self.index@.contains_key(p) implies self.index@[p]
                < self.nodes@.len() && self.nodes@[self.index@[p] as int].live
                && self.nodes@[self.index@[p] as int].path@ == p by {
                if p != path@ {
                    assert(mid.index@.contains_key(p));
                }
            }
            assert(linked(self.nodes@, self.index@));
            assert forall|p: Seq<Part>| #[trigger]
                self.index@.contains_key(p) <==> old(self).index@.contains_key(p)
                    || crate::model::within(root, path@, p) by {
                assert(self.index@.contains_key(p) <==> mid.index@.contains_key(p) || p == path@);
                if crate::path::parent_of(path@) is None {
                    assert(crate::model::within(root, root, p) <==> p == root);
                    assert(mid.index@.contains_key(root));
                }
            }
        }
        id
    }
}

/// The nodes agree in everything but the number of directories below.
spec fn recounted(now: Node, was: Node) -> bool {
    &&& now.path == was.path
    &&& now.parent == was.parent
    &&& now.size == was.size
    &&& now.file_count == was.file_count
    &&& now.files == was.files
    &&& now.live == was.live
    &&& now.dir() == was.dir()
}

/// `now` is `start` with nodes without files behind the others, for directories at or
/// above `path`.
spec fn grown_to(start: ScanTree, now: ScanTree, path: Seq<Part>) -> bool {
    &&& start.nodes@.len() <= now.nodes@.len()
    &&& forall|i: int|
        0 <= i < start.nodes@.len() ==> #[trigger] now.nodes@[i] == start.nodes@[i]
    &&& forall|i: int|
        start.nodes@.len() <= i < now.nodes@.len() ==> (#[trigger] now.nodes@[i]).fresh()
            && crate::model::within(start.nodes@[0].path@, path, now.nodes@[i].path@)
            && !start.index@.contains_key(now.nodes@[i].path@)
}

/// Making directories down to `path` grows the tree.
proof fn lemma_made(start: ScanTree, now: ScanTree, path: Seq<Part>)
    requires
        start.sound(),
        now.sound(),
        start.nodes@.len() <= now.nodes@.len(),
        forall|i: int|
            0 <= i < start.nodes@.len() ==> #[trigger] now.nodes@[i] == start.nodes@[i],
        forall|i: int|
            start.nodes@.len() <= i < now.nodes@.len() ==> (#[trigger] now.nodes@[i]).fresh(),
        forall|p: Seq<Part>| #[trigger]
            now.index@.contains_key(p) <==> start.index@.contains_key(p) || crate::model::within(
                start.nodes@[0].path@,
                path,
                p,
            ),
        now.skipped == start.skipped,
        now.cancelled == start.cancelled,
        now.disk_total == start.disk_total,
        now.disk_free == start.disk_free,
    ensures
        grown_to(start, now, path),
        start@.is_with_dir(path, now@),
{
    lemma_model_wf(start.nodes@, start.index@, start@);
    lemma_model_wf(now.nodes@, now.index@, now@);
    assert(now.nodes@[0] == start.nodes@[0]);
    assert forall|i: int| start.nodes@.len() <= i < now.nodes@.len() implies (
    #[trigger] now.nodes@[i]).fresh() && crate::model::within(
        start.nodes@[0].path@,
        path,
        now.nodes@[i].path@,
    ) && !start.index@.contains_key(now.nodes@[i].path@) by {
        let d = now.nodes@[i].path@;
        assert(now.nodes@[i].fresh());
        assert(now.index@[d] == i);
        if start.index@.contains_key(d) {
            let j = start.index@[d] as int;
            assert(now.nodes@[j] == start.nodes@[j]);
            assert(now.nodes@[j].live);
        }
    }
    lemma_dir_nodes_grow(start.nodes@, now.nodes@);
    assert(start@.dirs =~= now@.dirs.subrange(0, start@.dirs.len() as int));
    assert forall|k: int| start@.dirs.len() <= k < now@.dirs.len() implies (
    #[trigger] now@.dirs[k]).files.len() == 0 by {
        let i = k - start@.dirs.len() + start.nodes@.len();
        assert(now.nodes@[i].fresh());
        assert(now@.dirs[k] == now.nodes@[i].dir());
    }
    assert forall|q: Seq<Part>| #[trigger]
        now@.has_dir(q) <==> start@.has_dir(q) || crate::model::within(
            start@.root(),
            path,
            q,
        ) by {
        assert(now@.has_dir(q) <==> now.index@.contains_key(q));
        assert(start@.has_dir(q) <==> start.index@.contains_key(q));
    }
}

/// The directories of an arena that grew.
proof fn lemma_dir_nodes_grow(a: Seq<Node>, b: Seq<Node>)
    requires
        a.len() <= b.len(),
        forall|i: int| 0 <= i < a.len() ==> #[trigger] b[i] == a[i],
        forall|i: int| a.len() <= i < b.len() ==> (#[trigger] b[i]).live,
    ensures
        dir_nodes(b) == dir_nodes(a) + Seq::new(
            (b.len() - a.len()) as nat,
            |i: int| b[a.len() + i].dir(),
        ),
    decreases b.len(),
{
    if a.len() == b.len() {
        assert(a =~= b);
        assert(dir_nodes(b) =~= dir_nodes(a) + Seq::new(0, |i: int| b[a.len() + i].dir()));
    } else {
        let rest = b.drop_last();
        assert forall|i: int| 0 <= i < a.len() implies #[trigger] rest[i] == a[i] by {
            assert(b[i] == a[i]);
        }
        assert forall|i: int| a.len() <= i < rest.len() implies (#[trigger] rest[i]).live by {
            assert(b[i].live);
        }
        lemma_dir_nodes_grow(a, rest);
        assert(b[b.len() - 1].live);
        assert(dir_nodes(b) =~= dir_nodes(a) + Seq::new(
            (b.len() - a.len()) as nat,
            |i: int| b[a.len() + i].dir(),
        ));
    }
}

/// Making directories without files changes no totals of bytes and files, and no number
/// of directories but those of what lies above.
proof fn lemma_grown_totals(start: ScanTree, now: ScanTree, path: Seq<Part>, i: int)
    requires
        start.wf(),
        now.sound(),
        grown_to(start, now, path),
        0 <= i < now.nodes@.len(),
        now.nodes@[i].live,
    ensures
        now.nodes@[i].size == now@.total_size(now.nodes@[i].path@),
        now.nodes@[i].file_count == now@.total_files(now.nodes@[i].path@),
        !crate::model::within(now.nodes@[0].path@, path, now.nodes@[i].path@)
            ==> now.nodes@[i].dir_count == now@.total_dirs(now.nodes@[i].path@),
{
    let root = start.nodes@[0].path@;
    let d = now.nodes@[i].path@;
    let n0 = start.nodes@.len();
    let n1 = now.nodes@.len();
    lemma_model_wf(start.nodes@, start.index@, start@);
    lemma_model_wf(now.nodes@, now.index@, now@);
    assert(now.nodes@[0] == start.nodes@[0]);
    let size = crate::model::only_within(root, d, crate::model::own_size());
    let files = crate::model::only_within(root, d, crate::model::own_files());
    let dirs = crate::model::only_within(root, d, crate::model::own_dirs());
    lemma_dirs_sum_ids(now.nodes@, size);
    lemma_dirs_sum_ids(now.nodes@, files);
    lemma_dirs_sum_ids(now.nodes@, dirs);
    lemma_dirs_sum_ids(start.nodes@, size);
    lemma_dirs_sum_ids(start.nodes@, files);
    lemma_dirs_sum_ids(start.nodes@, dirs);
    assert forall|j: int| n0 <= j < n1 implies #[trigger] live_weight(now.nodes@, size)(j) == 0
        && live_weight(now.nodes@, files)(j) == 0 by {
        assert(now.nodes@[j].fresh());
        assert(now.nodes@[j].dir().files.len() == 0);
    }
    assert forall|j: int| n0 <= j < n1 implies #[trigger] live_weight(now.nodes@, files)(j) == 0 by {
        assert(live_weight(now.nodes@, size)(j) == 0);
    }
    if i < n0 {
        assert(now.nodes@[i] == start.nodes@[i]);
        lemma_id_sum_grow(n0, n1, live_weight(start.nodes@, size), live_weight(now.nodes@, size));
        lemma_id_sum_grow(n0, n1, live_weight(start.nodes@, files), live_weight(now.nodes@, files));
        if !crate::model::within(root, path, d) {
            assert forall|j: int| n0 <= j < n1 implies #[trigger] live_weight(now.nodes@, dirs)(j)
                == 0 by {
                let q = now.nodes@[j].path@;
                assert(now.nodes@[j].fresh() && crate::model::within(root, path, q));
                if crate::model::within(root, q, d) {
                    crate::model::lemma_within_trans(root, path, q, d);
                }
            }
            lemma_id_sum_grow(n0, n1, live_weight(start.nodes@, dirs), live_weight(now.nodes@, dirs));
        }
    } else {
        assert(now.nodes@[i].fresh());
        assert forall|j: int| 0 <= j < n1 implies #[trigger] live_weight(now.nodes@, size)(j) == 0
            && live_weight(now.nodes@, files)(j) == 0 by {
            if j < n0 {
                assert(now.nodes@[j] == start.nodes@[j]);
                if start.nodes@[j].live && crate::model::within(root, start.nodes@[j].path@, d) {
                    lemma_upward(start.nodes@, start.index@, start.nodes@[j].path@, d);
                }
            } else {
                assert(live_weight(now.nodes@, size)(j) == 0);
            }
        }
        assert forall|j: int| 0 <= j < n1 implies #[trigger] live_weight(now.nodes@, files)(j)
            == 0 by {
            assert(live_weight(now.nodes@, size)(j) == 0);
        }
        let none = |j: int| 0nat;
        lemma_id_sum_grow(0, n1, none, live_weight(now.nodes@, size));
        lemma_id_sum_grow(0, n1, none, live_weight(now.nodes@, files));
    }
}

/// What id `j` counts for reaches id `k` once all ids from `i` on have been added
/// to the ones above them.
spec fn flows(nodes: Seq<Node>, j: int, k: int, i: int) -> bool
    decreases j,
{
    j == k || (0 < j && i <= j && nodes[j].parent is Some && nodes[j].parent->0 < j && flows(
        nodes,
        nodes[j].parent->0 as int,
        k,
        i,
    ))
}

spec fn flow_weight(
    nodes: Seq<Node>,
    k: int,
    i: int,
    g: spec_fn(DirNode) -> nat,
) -> spec_fn(int) -> nat {
    |j: int|
        if flows(nodes, j, k, i) {
            g(nodes[j].dir())
        } else {
            0
        }
}

spec fn all_weight(nodes: Seq<Node>, g: spec_fn(DirNode) -> nat) -> spec_fn(int) -> nat {
    |j: int| g(nodes[j].dir())
}

/// What has reached `k` when the ids from `i` on have been added.
spec fn flow(nodes: Seq<Node>, k: int, i: int, g: spec_fn(DirNode) -> nat) -> nat {
    id_sum(nodes.len(), flow_weight(nodes, k, i, g))
}

spec fn parents_first(nodes: Seq<Node>) -> bool {
    forall|i: int|
        0 < i < nodes.len() ==> (#[trigger] nodes[i]).parent is Some && nodes[i].parent->0 < i
}

proof fn lemma_flows_step(nodes: Seq<Node>, j: int, k: int, i: int)
    requires
        parents_first(nodes),
        0 <= j < nodes.len(),
        0 < i < nodes.len(),
    ensures
        k != nodes[i].parent->0 ==> flows(nodes, j, k, i) == flows(nodes, j, k, i + 1),
        k == nodes[i].parent->0 ==> flows(nodes, j, k, i) == (flows(nodes, j, k, i + 1) || flows(
            nodes,
            j,
            i,
            i + 1,
        )),
        k == nodes[i].parent->0 ==> !(flows(nodes, j, k, i + 1) && flows(nodes, j, i, i + 1)),
    decreases j,
{
    reveal_with_fuel(flows, 3);
    if j > 0 {
        lemma_flows_step(nodes, nodes[j].parent->0 as int, k, i);
    }
}

proof fn lemma_flow_step(nodes: Seq<Node>, k: int, i: int, g: spec_fn(DirNode) -> nat)
    requires
        parents_first(nodes),
        0 < i < nodes.len(),
    ensures
        flow(nodes, k, i, g) == if k == nodes[i].parent->0 {
            flow(nodes, k, i + 1, g) + flow(nodes, i, i + 1, g)
        } else {
            flow(nodes, k, i + 1, g)
        },
{
    let n = nodes.len();
    if k == nodes[i].parent->0 {
        assert forall|j: int| 0 <= j < n implies #[trigger] flow_weight(nodes, k, i, g)(j)
            == flow_weight(nodes, k, i + 1, g)(j) + flow_weight(nodes, i, i + 1, g)(j) by {
            lemma_flows_step(nodes, j, k, i);
        }
        lemma_id_sum_split(
            n,
            flow_weight(nodes, k, i + 1, g),
            flow_weight(nodes, i, i + 1, g),
            flow_weight(nodes, k, i, g),
        );
    } else {
        assert forall|j: int| 0 <= j < n implies #[trigger] flow_weight(nodes, k, i, g)(j)
            == flow_weight(nodes, k, i + 1, g)(j) by {
            lemma_flows_step(nodes, j, k, i);
        }
        lemma_id_sum_ext(n, flow_weight(nodes, k, i, g), flow_weight(nodes, k, i + 1, g));
    }
}

/// Nothing has been added yet: every id has what is its own.
proof fn lemma_flow_start(nodes: Seq<Node>, k: int, g: spec_fn(DirNode) -> nat)
    requires
        0 <= k < nodes.len(),
    ensures
        flow(nodes, k, nodes.len() as int, g) == g(nodes[k].dir()),
{
    let n = nodes.len() as int;
    let f = flow_weight(nodes, k, n, g);
    assert forall|j: int| 0 <= j < n implies #[trigger] f(j) == if j == k {
        g(nodes[k].dir())
    } else {
        0
    } by {
        reveal_with_fuel(flows, 2);
    }
    lemma_id_sum_single(nodes.len(), f, k, g(nodes[k].dir()));
}

proof fn lemma_id_sum_single(n: nat, f: spec_fn(int) -> nat, k: int, v: nat)
    requires
        forall|j: int|
            0 <= j < n ==> #[trigger] f(j) == if j == k {
                v
            } else {
                0
            },
    ensures
        id_sum(n, f) == if 0 <= k < n {
            v
        } else {
            0
        },
    decreases n,
{
    if n > 0 {
        lemma_id_sum_single((n - 1) as nat, f, k, v);
        assert(f(n - 1) == if n - 1 == k {
            v
        } else {
            0
        });
    }
}

proof fn lemma_flow_bound(nodes: Seq<Node>, k: int, i: int, g: spec_fn(DirNode) -> nat)
    ensures
        flow(nodes, k, i, g) <= id_sum(nodes.len(), all_weight(nodes, g)),
{
    lemma_id_sum_le(nodes.len(), flow_weight(nodes, k, i, g), all_weight(nodes, g));
}

/// When everything has been added, what has reached a directory is the total of its
/// subtree.
proof fn lemma_flow_end(
    nodes: Seq<Node>,
    index: Map<Seq<Part>, usize>,
    m: TreeModel,
    k: int,
    g: spec_fn(DirNode) -> nat,
)
    requires
        linked(nodes, index),
        m.dirs == dir_nodes(nodes),
        forall|i: int| 0 <= i < nodes.len() ==> (#[trigger] nodes[i]).live,
        0 <= k < nodes.len(),
    ensures
        flow(nodes, k, 1, g) == m.total(nodes[k].path@, g),
{
    let root = nodes[0].path@;
    let d = nodes[k].path@;
    lemma_model_wf(nodes, index, m);
    let h = crate::model::only_within(root, d, g);
    lemma_dirs_sum_ids(nodes, h);
    assert forall|j: int| 0 <= j < nodes.len() implies #[trigger] flow_weight(nodes, k, 1, g)(j)
        == live_weight(nodes, h)(j) by {
        lemma_flows_within(nodes, index, j, k);
    }
    lemma_id_sum_ext(nodes.len(), flow_weight(nodes, k, 1, g), live_weight(nodes, h));
}

proof fn lemma_flows_within(nodes: Seq<Node>, index: Map<Seq<Part>, usize>, j: int, k: int)
    requires
        linked(nodes, index),
        forall|i: int| 0 <= i < nodes.len() ==> (#[trigger] nodes[i]).live,
        0 <= j < nodes.len(),
        0 <= k < nodes.len(),
    ensures
        flows(nodes, j, k, 1) == crate::model::within(nodes[0].path@, nodes[j].path@, nodes[k].path@),
    decreases j,
{
    assert(nodes[j].live && nodes[k].live && nodes[0].live);
    if j > 0 {
        lemma_flows_within(nodes, index, nodes[j].parent->0 as int, k);
    }
}

proof fn lemma_id_sum_bump(
    n: nat,
    f: spec_fn(int) -> nat,
    g: spec_fn(int) -> nat,
    k: int,
    v: nat,
)
    requires
        0 <= k < n,
        forall|j: int|
            0 <= j < n ==> #[trigger] g(j) == f(j) + if j == k {
                v
            } else {
                0
            },
    ensures
        id_sum(n, g) == id_sum(n, f) + v,
{
    let h = |j: int|
        if j == k {
            v
        } else {
            0
        };
    lemma_id_sum_split(n, f, h, g);
    lemma_id_sum_single(n, h, k, v);
}

/// Ids without a summand of their own add nothing.
proof fn lemma_id_sum_grow(
    n: nat,
    m: nat,
    f: spec_fn(int) -> nat,
    g: spec_fn(int) -> nat,
)
    requires
        n <= m,
        forall|j: int| 0 <= j < n ==> #[trigger] g(j) == f(j),
        forall|j: int| n <= j < m ==> #[trigger] g(j) == 0,
    ensures
        id_sum(m, g) == id_sum(n, f),
    decreases m,
{
    if n < m {
        lemma_id_sum_grow(n, (m - 1) as nat, f, g);
        assert(g(m - 1) == 0);
    } else {
        lemma_id_sum_ext(n, f, g);
    }
}

/// The node has the files of `files` that sit directly in its directory, and no
/// totals but theirs.
spec fn holds_own(node: Node, root: Seq<Part>, files: Seq<FileRec>) -> bool {
    &&& node.live
    &&& node.dir().files == files.filter(crate::model::held_by(root, node.path@))
    &&& node.size == crate::report::files_size(node.dir().files)
    &&& node.file_count == node.files@.len()
    &&& node.dir_count == 0
}

/// The node is that of `start`, with the totals that have reached it when the ids
/// from `i` on have been added to the ones above them.
spec fn carries(node: Node, start: Seq<Node>, k: int, i: int) -> bool {
    &&& node.path == start[k].path
    &&& node.parent == start[k].parent
    &&& node.files == start[k].files
    &&& node.live
    &&& node.size == flow(start, k, i, crate::model::own_size())
    &&& node.file_count == flow(start, k, i, crate::model::own_files())
    &&& node.dir_count + 1 == flow(start, k, i, crate::model::own_dirs())
}

proof fn lemma_id_sum_ones(n: nat, f: spec_fn(int) -> nat)
    requires
        forall|j: int| 0 <= j < n ==> #[trigger] f(j) == 1,
    ensures
        id_sum(n, f) == n,
    decreases n,
{
    if n > 0 {
        lemma_id_sum_ones((n - 1) as nat, f);
        assert(f(n - 1) == 1);
    }
}

/// A directory that was not in the tree holds none of the files seen so far.
proof fn lemma_new_dir_empty(
    start: ScanTree,
    mid: ScanTree,
    i: int,
    root: Seq<Part>,
    dirs0: Seq<Seq<Part>>,
    seen: Seq<FileRec>,
)
    requires
        start.sound(),
        mid.sound(),
        start.nodes@.len() <= i < mid.nodes@.len(),
        forall|j: int| 0 <= j < start.nodes@.len() ==> #[trigger] mid.nodes@[j] == start.nodes@[j],
        mid.nodes@[i].fresh(),
        forall|p: Seq<Part>| #[trigger]
            start.index@.contains_key(p) <==> crate::model::walked_dir(root, dirs0, seen, p),
    ensures
        holds_own(mid.nodes@[i], root, seen),
{
    let d = mid.nodes@[i].path@;
    assert(mid.index@[d] == i);
    if start.index@.contains_key(d) {
        let j = start.index@[d] as int;
        assert(mid.nodes@[j] == start.nodes@[j]);
        assert(mid.nodes@[j].live);
    }
    let held = crate::model::held_by(root, d);
    assert forall|m: int| 0 <= m < seen.len() implies !held(#[trigger] seen[m]) by {
        let h = crate::model::up(root, seen[m].path);
        assert(crate::model::within(root, h, h));
        assert(crate::model::walked_dir(root, dirs0, seen, h));
        assert(start.index@.contains_key(h));
    }
    crate::sort::lemma_filter_none(seen, held);
    assert(mid.nodes@[i].dir().files =~= seen.filter(held));
}

proof fn lemma_walked_more(
    root: Seq<Part>,
    dirs0: Seq<Seq<Part>>,
    files: Seq<FileRec>,
    k: int,
    p: Seq<Part>,
)
    requires
        0 <= k < files.len(),
    ensures
        crate::model::walked_dir(root, dirs0, files.take(k + 1), p) <==> (crate::model::walked_dir(
            root,
            dirs0,
            files.take(k),
            p,
        ) || crate::model::within(root, crate::model::up(root, files[k].path), p)),
{
    let a = files.take(k);
    let b = files.take(k + 1);
    assert(b[k] == files[k]);
    assert forall|i: int| 0 <= i < k implies #[trigger] b[i] == a[i] by {}
    assert forall|i: int| 0 <= i < k implies #[trigger] a[i] == b[i] by {}
}

proof fn lemma_filter_more(files: Seq<FileRec>, k: int, keep: spec_fn(FileRec) -> bool)
    requires
        0 <= k < files.len(),
    ensures
        files.take(k + 1).filter(keep) == if keep(files[k]) {
            files.take(k).filter(keep).push(files[k])
        } else {
            files.take(k).filter(keep)
        },
{
    reveal(Seq::filter);
    assert(files.take(k + 1).drop_last() =~= files.take(k));
}

/// There is room for one more file.
proof fn lemma_own_bound(node: Node, root: Seq<Part>, files: Seq<FileRec>, k: int)
    requires
        0 <= k < files.len() <= usize::MAX,
        holds_own(node, root, files.take(k)),
        node.path@ == crate::model::up(root, files[k].path),
        crate::report::files_size(files) <= u64::MAX,
    ensures
        node.size + files[k].size <= u64::MAX,
        node.file_count + 1 <= u64::MAX,
{
    let keep = crate::model::held_by(root, node.path@);
    lemma_filter_more(files, k, keep);
    let own = files.take(k).filter(keep);
    assert(own.push(files[k]).drop_last() =~= own);
    crate::report::lemma_files_size_filter(files.take(k + 1), keep);
    crate::report::lemma_files_size_take(files, k + 1);
    files.take(k).lemma_filter_len(keep);
}

proof fn lemma_file_added(
    mid: ScanTree,
    now: ScanTree,
    id: int,
    rec: FileRec,
    root: Seq<Part>,
    files: Seq<FileRec>,
    k: int,
)
    requires
        mid.sound(),
        0 <= k < files.len(),
        rec == files[k],
        0 <= id < mid.nodes@.len(),
        mid.nodes@[id].path@ == crate::model::up(root, rec.path),
        forall|i: int|
            0 <= i < mid.nodes@.len() ==> holds_own(#[trigger] mid.nodes@[i], root, files.take(k)),
        now.index == mid.index,
        now.nodes@.len() == mid.nodes@.len(),
        forall|i: int|
            0 <= i < mid.nodes@.len() && i != id ==> #[trigger] now.nodes@[i] == mid.nodes@[i],
        now.nodes@[id].path == mid.nodes@[id].path,
        now.nodes@[id].parent == mid.nodes@[id].parent,
        now.nodes@[id].live == mid.nodes@[id].live,
        now.nodes@[id].dir_count == mid.nodes@[id].dir_count,
        now.nodes@[id].size == mid.nodes@[id].size + rec.size,
        now.nodes@[id].file_count == mid.nodes@[id].file_count + 1,
        now.nodes@[id].dir().files == mid.nodes@[id].dir().files.push(rec),
        id_sum(mid.nodes@.len(), all_weight(mid.nodes@, crate::model::own_size()))
            == crate::report::files_size(files.take(k)),
        id_sum(mid.nodes@.len(), all_weight(mid.nodes@, crate::model::own_files())) == k,
    ensures
        now.sound(),
        forall|i: int|
            0 <= i < now.nodes@.len() ==> holds_own(
                #[trigger] now.nodes@[i],
                root,
                files.take(k + 1),
            ),
        id_sum(now.nodes@.len(), all_weight(now.nodes@, crate::model::own_size()))
            == crate::report::files_size(files.take(k + 1)),
        id_sum(now.nodes@.len(), all_weight(now.nodes@, crate::model::own_files())) == k + 1,
{
    let n = mid.nodes@.len();
    let was = mid.nodes@[id].dir().files;
    assert(was.push(rec).drop_last() =~= was);
    assert forall|i: int| 0 <= i < n implies {
        let node = #[trigger] now.nodes@[i];
        &&& node.live == mid.nodes@[i].live
        &&& node.parent == mid.nodes@[i].parent
        &&& node.path == mid.nodes@[i].path
    } by {
        if i != id {
            assert(now.nodes@[i] == mid.nodes@[i]);
        }
    }
    assert(linked(now.nodes@, now.index@)) by {
        assert forall|i: int| 0 <= i < n && (#[trigger] now.nodes@[i]).live implies
            now.index@.contains_key(now.nodes@[i].path@) && now.index@[now.nodes@[i].path@] == i by {
            assert(mid.nodes@[i].live);
        }
        assert forall|i: int| 0 < i < n && (#[trigger] now.nodes@[i]).live implies now.nodes@[now.nodes@[i].parent->0 as int].live
            && now.nodes@[now.nodes@[i].parent->0 as int].path@ == crate::model::up(
            now.nodes@[0].path@,
            now.nodes@[i].path@,
        ) by {
            assert(mid.nodes@[i].live);
            assert(mid.nodes@[i].parent->0 < i);
        }
        assert forall|i: int| 0 < i < n implies (#[trigger] now.nodes@[i]).parent is Some
            && now.nodes@[i].parent->0 < i by {
            assert(mid.nodes@[i].parent is Some);
        }
    }
    assert forall|i: int| 0 <= i < n implies holds_own(
        #[trigger] now.nodes@[i],
        root,
        files.take(k + 1),
    ) by {
        let keep = crate::model::held_by(root, mid.nodes@[i].path@);
        lemma_filter_more(files, k, keep);
        assert(holds_own(mid.nodes@[i], root, files.take(k)));
        if i != id {
            assert(mid.nodes@[i].live && mid.nodes@[id].live);
            assert(mid.nodes@[i].path@ != mid.nodes@[id].path@);
        } else {
            assert(now.nodes@[id].dir().files.len() == now.nodes@[id].files@.len());
        }
    }
    assert forall|i: int| 0 <= i < n implies #[trigger] all_weight(
        now.nodes@,
        crate::model::own_size(),
    )(i) == all_weight(mid.nodes@, crate::model::own_size())(i) + if i == id {
        rec.size as nat
    } else {
        0
    } by {
        assert(i != id ==> now.nodes@[i] == mid.nodes@[i]);
    }
    assert forall|i: int| 0 <= i < n implies #[trigger] all_weight(
        now.nodes@,
        crate::model::own_files(),
    )(i) == all_weight(mid.nodes@, crate::model::own_files())(i) + if i == id {
        1nat
    } else {
        0
    } by {
        assert(i != id ==> now.nodes@[i] == mid.nodes@[i]);
    }
    lemma_id_sum_bump(
        n,
        all_weight(mid.nodes@, crate::model::own_size()),
        all_weight(now.nodes@, crate::model::own_size()),
        id,
        rec.size as nat,
    );
    lemma_id_sum_bump(
        n,
        all_weight(mid.nodes@, crate::model::own_files()),
        all_weight(now.nodes@, crate::model::own_files()),
        id,
        1,
    );
    assert(files.take(k + 1).drop_last() =~= files.take(k));
    assert(files.take(k + 1).last() == rec);
}

/// Arenas that agree in everything but the totals have the same directories.
proof fn lemma_same_dirs(a: Seq<Node>, b: Seq<Node>)
    requires
        a.len() == b.len(),
        forall|i: int|
            0 <= i < a.len() ==> (#[trigger] a[i]).dir() == b[i].dir() && a[i].live == b[i].live,
    ensures
        dir_nodes(a) == dir_nodes(b),
    decreases a.len(),
{
    if a.len() > 0 {
        assert forall|i: int| 0 <= i < a.drop_last().len() implies (
        #[trigger] a.drop_last()[i]).dir() == b.drop_last()[i].dir() && a.drop_last()[i].live
            == b.drop_last()[i].live by {
            assert(a.drop_last()[i] == a[i]);
        }
        lemma_same_dirs(a.drop_last(), b.drop_last());
        assert(a[a.len() - 1].dir() == b[b.len() - 1].dir());
    }
}

proof fn lemma_rolled_up(start: Seq<Node>, now: ScanTree)
    requires
        linked(start, now.index@),
        now.index.wf(),
        forall|i: int| 0 <= i < start.len() ==> (#[trigger] start[i]).live,
        now.nodes@.len() == start.len(),
        forall|k: int| 0 <= k < start.len() ==> carries(#[trigger] now.nodes@[k], start, k, 1),
    ensures
        now.wf(),
        dir_nodes(now.nodes@) == dir_nodes(start),
        forall|k: int| 0 <= k < start.len() ==> (#[trigger] now.nodes@[k]).dir() == start[k].dir(),
{
    assert forall|k: int| 0 <= k < start.len() implies {
        let node = #[trigger] now.nodes@[k];
        &&& node.live
        &&& node.dir() == start[k].dir()
        &&& node.path == start[k].path
        &&& node.parent == start[k].parent
    } by {
        assert(carries(now.nodes@[k], start, k, 1));
        assert(start[k].live);
    }
    lemma_same_dirs(now.nodes@, start);
    assert(linked(now.nodes@, now.index@)) by {
        assert forall|i: int| 0 < i < start.len() && (#[trigger] now.nodes@[i]).live implies now.nodes@[now.nodes@[i].parent->0 as int].live
            && now.nodes@[now.nodes@[i].parent->0 as int].path@ == crate::model::up(
            now.nodes@[0].path@,
            now.nodes@[i].path@,
        ) by {
            assert(start[i].live);
            assert(start[i].parent->0 < i);
        }
        assert forall|i: int| 0 < i < start.len() implies (#[trigger] now.nodes@[i]).parent is Some
            && now.nodes@[i].parent->0 < i by {
            assert(start[i].parent is Some);
        }
        assert forall|i: int| 0 <= i < start.len() && (#[trigger] now.nodes@[i]).live implies
            now.index@.contains_key(now.nodes@[i].path@) && now.index@[now.nodes@[i].path@] == i by {
            assert(start[i].live);
        }
    }
    assert forall|k: int| 0 <= k < now.nodes@.len() && (#[trigger] now.nodes@[k]).live implies {
        &&& now.nodes@[k].size == now@.total_size(now.nodes@[k].path@)
        &&& now.nodes@[k].file_count == now@.total_files(now.nodes@[k].path@)
        &&& now.nodes@[k].dir_count == now@.total_dirs(now.nodes@[k].path@)
    } by {
        assert(carries(now.nodes@[k], start, k, 1));
        lemma_flow_end(start, now.index@, now@, k, crate::model::own_size());
        lemma_flow_end(start, now.index@, now@, k, crate::model::own_files());
        lemma_flow_end(start, now.index@, now@, k, crate::model::own_dirs());
    }
}

/// Id `j` is in the tree and its directory lies at or below that of `id`.
spec fn in_subtree(nodes: Seq<Node>, id: int, j: int) -> bool {
    nodes[j].live && crate::model::within(nodes[0].path@, nodes[j].path@, nodes[id].path@)
}

proof fn lemma_sum_member(dirs: Seq<DirNode>, g: spec_fn(DirNode) -> nat, k: int)
    requires
        0 <= k < dirs.len(),
    ensures
        g(dirs[k]) <= crate::model::dirs_sum(dirs, g),
    decreases dirs.len(),
{
    if k < dirs.len() - 1 {
        lemma_sum_member(dirs.drop_last(), g, k);
    }
}

/// The files of a directory are those on its node.
proof fn lemma_files_of(nodes: Seq<Node>, index: Map<Seq<Part>, usize>, m: TreeModel, id: int)
    requires
        linked(nodes, index),
        m.dirs == dir_nodes(nodes),
        0 <= id < nodes.len(),
        nodes[id].live,
    ensures
        m.has_dir(nodes[id].path@),
        m.files_of(nodes[id].path@) == nodes[id].dir().files,
{
    let d = nodes[id].path@;
    lemma_model_wf(nodes, index, m);
    lemma_place(nodes, id);
    let k = place(nodes, id);
    assert(m.dirs[k].path == d);
    let c = choose|i: int| 0 <= i < m.dirs.len() && (#[trigger] m.dirs[i]).path == d;
    if c < k {
        assert(m.dirs[c].path != m.dirs[k].path);
    } else if k < c {
        assert(m.dirs[k].path != m.dirs[c].path);
    }
}

/// `now` is `was`, less the given totals where `less` holds.
spec fn lessened(now: Node, was: Node, less: bool, size: u64, files: u64, dirs: u64) -> bool {
    &&& now.path == was.path
    &&& now.parent == was.parent
    &&& now.files == was.files
    &&& now.live == was.live
    &&& now.size == if less {
        minus(was.size, size)
    } else {
        was.size as int
    }
    &&& now.file_count == if less {
        minus(was.file_count, files)
    } else {
        was.file_count as int
    }
    &&& now.dir_count == if less {
        minus(was.dir_count, dirs)
    } else {
        was.dir_count as int
    }
}

spec fn minus(a: u64, b: u64) -> int {
    if a >= b {
        a - b
    } else {
        0
    }
}

/// `now` is `was`, out of the tree where `gone` holds.
spec fn cut(now: Node, was: Node, gone: bool) -> bool {
    &&& now.path == was.path
    &&& now.parent == was.parent
    &&& now.size == was.size
    &&& now.file_count == was.file_count
    &&& now.dir_count == was.dir_count
    &&& now.live == (was.live && !gone)
    &&& !gone ==> now.files == was.files
}

/// A directory above another has the smaller id.
proof fn lemma_above_earlier(nodes: Seq<Node>, index: Map<Seq<Part>, usize>, a: int, b: int)
    requires
        linked(nodes, index),
        0 <= a < nodes.len(),
        0 <= b < nodes.len(),
        nodes[a].live,
        nodes[b].live,
        crate::model::within(nodes[0].path@, nodes[a].path@, nodes[b].path@),
    ensures
        b <= a,
    decreases a,
{
    if nodes[a].path@ == nodes[b].path@ {
        assert(index[nodes[a].path@] == a && index[nodes[b].path@] == b);
    } else {
        assert(nodes[0].live);
        assert(a != 0);
        let q = nodes[a].parent->0 as int;
        assert(nodes[q].live);
        lemma_above_earlier(nodes, index, q, b);
    }
}

/// No directory above `p` has an id between that of `at` and that of its parent.
proof fn lemma_none_between(
    nodes: Seq<Node>,
    index: Map<Seq<Part>, usize>,
    p: Seq<Part>,
    at: int,
    i: int,
)
    requires
        linked(nodes, index),
        0 < at < nodes.len(),
        0 <= i < nodes.len(),
        nodes[at].live,
        nodes[i].live,
        crate::model::within(nodes[0].path@, p, nodes[at].path@),
        crate::model::within(nodes[0].path@, p, nodes[i].path@),
        i < at,
    ensures
        i <= nodes[at].parent->0,
{
    let root = nodes[0].path@;
    crate::model::lemma_within_linear(root, p, nodes[at].path@, nodes[i].path@);
    if crate::model::within(root, nodes[i].path@, nodes[at].path@) {
        lemma_above_earlier(nodes, index, i, at);
    }
    assert(index[nodes[at].path@] == at && index[nodes[i].path@] == i);
    assert(nodes[0].live);
    let q = nodes[at].parent->0 as int;
    assert(nodes[q].live);
    assert(crate::model::within(root, nodes[q].path@, nodes[i].path@));
    lemma_above_earlier(nodes, index, q, i);
}

/// Links do not depend on files and totals.
proof fn lemma_same_links(was: ScanTree, now: ScanTree)
    requires
        was.sound(),
        now.index == was.index,
        now.nodes@.len() == was.nodes@.len(),
        forall|i: int|
            0 <= i < was.nodes@.len() ==> (#[trigger] now.nodes@[i]).path == was.nodes@[i].path
                && now.nodes@[i].parent == was.nodes@[i].parent && now.nodes@[i].live
                == was.nodes@[i].live,
    ensures
        now.sound(),
{
    let n = was.nodes@.len();
    assert forall|i: int| 0 <= i < n && (#[trigger] now.nodes@[i]).live implies
        now.index@.contains_key(now.nodes@[i].path@) && now.index@[now.nodes@[i].path@] == i by {
        assert(was.nodes@[i].live);
    }
    assert forall|i: int| 0 < i < n && (#[trigger] now.nodes@[i]).live implies now.nodes@[now.nodes@[i].parent->0 as int].live
        && now.nodes@[now.nodes@[i].parent->0 as int].path@ == crate::model::up(
        now.nodes@[0].path@,
        now.nodes@[i].path@,
    ) by {
        assert(was.nodes@[i].live);
        assert(was.nodes@[i].parent->0 < i);
    }
    assert forall|i: int| 0 < i < n implies (#[trigger] now.nodes@[i]).parent is Some
        && now.nodes@[i].parent->0 < i by {
        assert(was.nodes@[i].parent is Some);
    }
}

proof fn lemma_dirs_bound(t: ScanTree, id: int)
    requires
        t.wf(),
        0 < id < t.nodes@.len(),
        t.nodes@[id].live,
    ensures
        t.nodes@[id].dir_count < u64::MAX,
{
    let g = crate::model::only_within(t@.root(), t.nodes@[id].path@, crate::model::own_dirs());
    lemma_dirs_sum_ids(t.nodes@, g);
    let ones = |j: int| 1nat;
    lemma_id_sum_le(t.nodes@.len(), live_weight(t.nodes@, g), ones);
    lemma_id_sum_ones(t.nodes@.len(), ones);
    assert(t.nodes.len() <= usize::MAX);
}

/// Cutting out a subtree leaves a tree without it.
proof fn lemma_cut(was: ScanTree, now: ScanTree, id: int)
    requires
        was.sound(),
        0 < id < was.nodes@.len(),
        was.nodes@[id].live,
        now.index.wf(),
        now.nodes@.len() == was.nodes@.len(),
        forall|i: int|
            0 <= i < was.nodes@.len() ==> cut(
                #[trigger] now.nodes@[i],
                was.nodes@[i],
                in_subtree(was.nodes@, id, i),
            ),
        forall|q: Seq<Part>| #[trigger]
            now.index@.contains_key(q) <==> was.index@.contains_key(q) && !(was.index@[q]
                < was.nodes@.len() && crate::model::within(
                was.nodes@[0].path@,
                q,
                was.nodes@[id].path@,
            )),
        forall|q: Seq<Part>| #[trigger]
            now.index@.contains_key(q) ==> now.index@[q] == was.index@[q],
    ensures
        now.sound(),
        dir_nodes(now.nodes@) == dir_nodes(was.nodes@).filter(
            crate::model::outside(was.nodes@[0].path@, was.nodes@[id].path@),
        ),
{
    let n = was.nodes@.len();
    let root = was.nodes@[0].path@;
    let p = was.nodes@[id].path@;
    let keep = crate::model::outside(root, p);
    assert(was.nodes@[0].live);
    assert(p != root) by {
        assert(was.index@[root] == 0 && was.index@[p] == id);
    }
    assert(!in_subtree(was.nodes@, id, 0));
    assert(cut(now.nodes@[0], was.nodes@[0], false));
    assert forall|i: int| 0 <= i < n && (#[trigger] now.nodes@[i]).live implies
        now.index@.contains_key(now.nodes@[i].path@) && now.index@[now.nodes@[i].path@] == i by {
        assert(cut(now.nodes@[i], was.nodes@[i], in_subtree(was.nodes@, id, i)));
        assert(was.nodes@[i].live);
    }
    assert forall|i: int| 0 < i < n && (#[trigger] now.nodes@[i]).live implies now.nodes@[now.nodes@[i].parent->0 as int].live
        && now.nodes@[now.nodes@[i].parent->0 as int].path@ == crate::model::up(
        now.nodes@[0].path@,
        now.nodes@[i].path@,
    ) by {
        assert(cut(now.nodes@[i], was.nodes@[i], in_subtree(was.nodes@, id, i)));
        assert(was.nodes@[i].live);
        let q = was.nodes@[i].parent->0 as int;
        assert(q < i);
        assert(was.nodes@[q].live);
        assert(was.index@[was.nodes@[i].path@] == i);
        assert(was.nodes@[i].path@ != root);
        assert(!in_subtree(was.nodes@, id, q));
        assert(cut(now.nodes@[q], was.nodes@[q], in_subtree(was.nodes@, id, q)));
    }
    assert forall|i: int| 0 < i < n implies (#[trigger] now.nodes@[i]).parent is Some
        && now.nodes@[i].parent->0 < i by {
        assert(was.nodes@[i].parent is Some);
        assert(cut(now.nodes@[i], was.nodes@[i], in_subtree(was.nodes@, id, i)));
    }
    assert forall|q: Seq<Part>| #[trigger] now.index@.contains_key(q) implies now.index@[q]
        < now.nodes@.len() && now.nodes@[now.index@[q] as int].live
        && now.nodes@[now.index@[q] as int].path@ == q by {
        assert(was.index@.contains_key(q));
        let i = was.index@[q] as int;
        assert(cut(now.nodes@[i], was.nodes@[i], in_subtree(was.nodes@, id, i)));
    }
    assert(linked(now.nodes@, now.index@));
    assert forall|i: int| 0 <= i < n implies {
        &&& (#[trigger] now.nodes@[i]).live == (was.nodes@[i].live && keep(was.nodes@[i].dir()))
        &&& now.nodes@[i].live ==> now.nodes@[i].dir() == was.nodes@[i].dir()
    } by {
        assert(cut(now.nodes@[i], was.nodes@[i], in_subtree(was.nodes@, id, i)));
    }
    lemma_dirs_filtered(was.nodes@, now.nodes@, keep);
}

/// The directory above a removed one stays.
proof fn lemma_parent_kept(was: ScanTree, now: ScanTree, id: int)
    requires
        was.sound(),
        0 < id < was.nodes@.len(),
        was.nodes@[id].live,
        now.nodes@.len() == was.nodes@.len(),
        forall|i: int|
            0 <= i < was.nodes@.len() ==> cut(
                #[trigger] now.nodes@[i],
                was.nodes@[i],
                in_subtree(was.nodes@, id, i),
            ),
    ensures
        now.nodes@[id].parent == was.nodes@[id].parent,
        was.nodes@[id].parent is Some,
        was.nodes@[id].parent->0 < id,
        now.nodes@[was.nodes@[id].parent->0 as int].live,
{
    let root = was.nodes@[0].path@;
    let p = was.nodes@[id].path@;
    let q = was.nodes@[id].parent->0 as int;
    let qp = was.nodes@[q].path@;
    assert(cut(now.nodes@[id], was.nodes@[id], in_subtree(was.nodes@, id, id)));
    assert(cut(now.nodes@[q], was.nodes@[q], in_subtree(was.nodes@, id, q)));
    assert(was.nodes@[0].live && was.nodes@[q].live);
    assert(was.index@[qp] == q && was.index@[p] == id && was.index@[root] == 0);
    if crate::model::within(root, qp, p) {
        assert(crate::model::within(root, qp, qp));
        assert(crate::model::within(root, p, qp));
        crate::model::lemma_within_antisym(root, qp, p);
    }
}

proof fn lemma_dirs_filtered(was: Seq<Node>, now: Seq<Node>, keep: spec_fn(DirNode) -> bool)
    requires
        now.len() == was.len(),
        forall|i: int|
            0 <= i < was.len() ==> {
                &&& (#[trigger] now[i]).live == (was[i].live && keep(was[i].dir()))
                &&& now[i].live ==> now[i].dir() == was[i].dir()
            },
    ensures
        dir_nodes(now) == dir_nodes(was).filter(keep),
    decreases was.len(),
{
    reveal(Seq::filter);
    if was.len() > 0 {
        let w = was.drop_last();
        let n = now.drop_last();
        assert forall|i: int| 0 <= i < w.len() implies {
            &&& (#[trigger] n[i]).live == (w[i].live && keep(w[i].dir()))
            &&& n[i].live ==> n[i].dir() == w[i].dir()
        } by {
            assert(n[i] == now[i]);
        }
        lemma_dirs_filtered(w, n, keep);
        assert(now[now.len() - 1] == now.last());
        if was.last().live {
            assert(dir_nodes(was).drop_last() =~= dir_nodes(w));
        }
    }
}

proof fn lemma_dir_removed(was: ScanTree, mid: ScanTree, now: ScanTree, id: int, q: int)
    requires
        was.wf(),
        mid.sound(),
        now.sound(),
        0 < id < was.nodes@.len(),
        was.nodes@[id].live,
        was.nodes@[id].parent is Some,
        was.nodes@[id].parent->0 == q,
        0 <= q < id,
        mid.nodes@.len() == was.nodes@.len(),
        now.nodes@.len() == was.nodes@.len(),
        forall|i: int|
            0 <= i < was.nodes@.len() ==> cut(
                #[trigger] mid.nodes@[i],
                was.nodes@[i],
                in_subtree(was.nodes@, id, i),
            ),
        dir_nodes(mid.nodes@) == dir_nodes(was.nodes@).filter(
            crate::model::outside(was.nodes@[0].path@, was.nodes@[id].path@),
        ),
        was.nodes@[id].dir_count < u64::MAX,
        forall|i: int|
            0 <= i < was.nodes@.len() ==> lessened(
                #[trigger] now.nodes@[i],
                mid.nodes@[i],
                mid.nodes@[i].live && crate::model::within(
                    mid.nodes@[0].path@,
                    mid.nodes@[q].path@,
                    mid.nodes@[i].path@,
                ),
                was.nodes@[id].size,
                was.nodes@[id].file_count,
                (was.nodes@[id].dir_count + 1) as u64,
            ),
        now.skipped == was.skipped,
        now.cancelled == was.cancelled,
        now.disk_total == was.disk_total,
        now.disk_free == was.disk_free,
    ensures
        now.wf(),
        now@ == was@.without_dir(was.nodes@[id].path@),
{
    let root = was.nodes@[0].path@;
    let p = was.nodes@[id].path@;
    let n = was.nodes@.len();
    lemma_model_wf(was.nodes@, was.index@, was@);
    assert(was.nodes@[0].live);
    assert(p != root) by {
        assert(was.index@[root] == 0 && was.index@[p] == id);
    }
    assert(was.index@.contains_key(p));
    assert forall|i: int| 0 <= i < n implies (#[trigger] now.nodes@[i]).dir() == mid.nodes@[i].dir()
        && now.nodes@[i].live == mid.nodes@[i].live by {
        assert(lessened(
            now.nodes@[i],
            mid.nodes@[i],
            mid.nodes@[i].live && crate::model::within(
                mid.nodes@[0].path@,
                mid.nodes@[q].path@,
                mid.nodes@[i].path@,
            ),
            was.nodes@[id].size,
            was.nodes@[id].file_count,
            (was.nodes@[id].dir_count + 1) as u64,
        ));
    }
    lemma_same_dirs(now.nodes@, mid.nodes@);
    assert(now@ == was@.without_dir(p));
    let qp = was.nodes@[q].path@;
    assert(was.nodes@[q].live && qp == crate::model::up(root, p));
    assert(cut(mid.nodes@[q], was.nodes@[q], in_subtree(was.nodes@, id, q)));
    assert(cut(mid.nodes@[0], was.nodes@[0], in_subtree(was.nodes@, id, 0)));
    assert forall|i: int| 0 <= i < n && (#[trigger] now.nodes@[i]).live implies {
        &&& now.nodes@[i].size == now@.total_size(now.nodes@[i].path@)
        &&& now.nodes@[i].file_count == now@.total_files(now.nodes@[i].path@)
        &&& now.nodes@[i].dir_count == now@.total_dirs(now.nodes@[i].path@)
    } by {
        let d = was.nodes@[i].path@;
        assert(cut(mid.nodes@[i], was.nodes@[i], in_subtree(was.nodes@, id, i)));
        assert(lessened(
            now.nodes@[i],
            mid.nodes@[i],
            mid.nodes@[i].live && crate::model::within(
                mid.nodes@[0].path@,
                mid.nodes@[q].path@,
                mid.nodes@[i].path@,
            ),
            was.nodes@[id].size,
            was.nodes@[id].file_count,
            (was.nodes@[id].dir_count + 1) as u64,
        ));
        assert(was.nodes@[i].live);
        assert(!crate::model::within(root, d, p));
        crate::model::law_remove_dir(was@, p, d, crate::model::own_size());
        crate::model::law_remove_dir(was@, p, d, crate::model::own_files());
        crate::model::law_remove_dir(was@, p, d, crate::model::own_dirs());
        assert(p != d) by {
            assert(crate::model::within(root, p, p));
        }
        assert(crate::model::within(root, p, d) == crate::model::within(root, qp, d));
        // The directory still counts itself.
        lemma_place(now.nodes@, i);
        let ones = crate::model::only_within(root, d, crate::model::own_dirs());
        lemma_sum_member(now@.dirs, ones, place(now.nodes@, i));
        assert(crate::model::within(root, d, d));
    }
}

proof fn lemma_file_removed(
    was: ScanTree,
    mid: ScanTree,
    now: ScanTree,
    pid: int,
    p: Seq<Part>,
    k: int,
)
    requires
        was.wf(),
        mid.sound(),
        now.sound(),
        0 <= pid < was.nodes@.len(),
        was.nodes@[pid].live,
        crate::model::is_first_file(was.nodes@[pid].dir().files, p, k),
        mid.nodes@.len() == was.nodes@.len(),
        now.nodes@.len() == was.nodes@.len(),
        forall|i: int|
            0 <= i < was.nodes@.len() && i != pid ==> #[trigger] mid.nodes@[i] == was.nodes@[i],
        mid.nodes@[pid].path == was.nodes@[pid].path,
        mid.nodes@[pid].parent == was.nodes@[pid].parent,
        mid.nodes@[pid].live == was.nodes@[pid].live,
        mid.nodes@[pid].size == was.nodes@[pid].size,
        mid.nodes@[pid].file_count == was.nodes@[pid].file_count,
        mid.nodes@[pid].dir_count == was.nodes@[pid].dir_count,
        mid.nodes@[pid].dir().files == was.nodes@[pid].dir().files.remove(k),
        forall|i: int|
            0 <= i < was.nodes@.len() ==> lessened(
                #[trigger] now.nodes@[i],
                mid.nodes@[i],
                mid.nodes@[i].live && crate::model::within(
                    mid.nodes@[0].path@,
                    mid.nodes@[pid].path@,
                    mid.nodes@[i].path@,
                ),
                was.nodes@[pid].dir().files[k].size,
                1,
                0,
            ),
        now.skipped == was.skipped,
        now.cancelled == was.cancelled,
        now.disk_total == was.disk_total,
        now.disk_free == was.disk_free,
    ensures
        now.wf(),
        now@ == was@.without_file(was.nodes@[pid].path@, p),
{
    let n = was.nodes@.len();
    let q = was.nodes@[pid].path@;
    let own = was.nodes@[pid].dir().files;
    lemma_model_wf(was.nodes@, was.index@, was@);
    lemma_files_of(was.nodes@, was.index@, was@, pid);
    crate::model::lemma_first_file_is(own, p, k);
    assert forall|i: int| 0 <= i < n implies {
        &&& (#[trigger] mid.nodes@[i]).path == was.nodes@[i].path
        &&& mid.nodes@[i].live == was.nodes@[i].live
        &&& mid.nodes@[i].size == was.nodes@[i].size
        &&& mid.nodes@[i].file_count == was.nodes@[i].file_count
        &&& mid.nodes@[i].dir_count == was.nodes@[i].dir_count
    } by {
        if i != pid {
            assert(mid.nodes@[i] == was.nodes@[i]);
        }
    }
    assert forall|i: int| 0 <= i < n implies (#[trigger] now.nodes@[i]).dir() == mid.nodes@[i].dir()
        && now.nodes@[i].live == mid.nodes@[i].live by {
        assert(lessened(
            now.nodes@[i],
            mid.nodes@[i],
            mid.nodes@[i].live && crate::model::within(
                mid.nodes@[0].path@,
                mid.nodes@[pid].path@,
                mid.nodes@[i].path@,
            ),
            own[k].size,
            1,
            0,
        ));
    }
    lemma_same_dirs(now.nodes@, mid.nodes@);
    let target = was@.without_file(q, p);
    lemma_one_dir_changed(was.nodes@, mid.nodes@, pid);
    lemma_place(was.nodes@, pid);
    assert(now@.dirs =~= target.dirs) by {
        assert forall|c: int| 0 <= c < target.dirs.len() implies now@.dirs[c] == target.dirs[c] by {
            let i = lemma_placed(was.nodes@, c);
            assert(was.nodes@[i].live && was.nodes@[pid].live);
            if i != pid {
                assert(was.index@[was.nodes@[i].path@] == i && was.index@[q] == pid);
            }
        }
    }
    assert(now@ == target);
    assert forall|i: int| 0 <= i < n && (#[trigger] now.nodes@[i]).live implies {
        &&& now.nodes@[i].size == now@.total_size(now.nodes@[i].path@)
        &&& now.nodes@[i].file_count == now@.total_files(now.nodes@[i].path@)
        &&& now.nodes@[i].dir_count == now@.total_dirs(now.nodes@[i].path@)
    } by {
        assert(lessened(
            now.nodes@[i],
            mid.nodes@[i],
            mid.nodes@[i].live && crate::model::within(
                mid.nodes@[0].path@,
                mid.nodes@[pid].path@,
                mid.nodes@[i].path@,
            ),
            own[k].size,
            1,
            0,
        ));
        assert(mid.nodes@[i].path == was.nodes@[i].path);
        assert(mid.nodes@[0].path == was.nodes@[0].path);
        assert(was.nodes@[i].live);
        crate::model::law_remove_file(was@, q, p, was.nodes@[i].path@);
    }
}

/// Changing one directory's files changes one place in the list of directories.
proof fn lemma_one_dir_changed(was: Seq<Node>, now: Seq<Node>, k: int)
    requires
        0 <= k < was.len(),
        now.len() == was.len(),
        forall|i: int| 0 <= i < was.len() && i != k ==> #[trigger] now[i] == was[i],
        was[k].live,
        now[k].live,
    ensures
        dir_nodes(now) == dir_nodes(was).update(place(was, k), now[k].dir()),
    decreases was.len(),
{
    let w = was.drop_last();
    let n = now.drop_last();
    if k == was.len() - 1 {
        assert(w =~= n);
        assert(was.take(k) =~= w);
        assert(dir_nodes(now) =~= dir_nodes(was).update(place(was, k), now[k].dir()));
    } else {
        assert forall|i: int| 0 <= i < w.len() && i != k implies #[trigger] n[i] == w[i] by {
            assert(n[i] == now[i]);
        }
        lemma_one_dir_changed(w, n, k);
        assert(w.take(k) =~= was.take(k));
        lemma_place(w, k);
        assert(now[was.len() - 1] == was[was.len() - 1]);
        assert(dir_nodes(now) =~= dir_nodes(was).update(place(was, k), now[k].dir()));
    }
}

/// A shorter path does not lie below a longer one other than the root.
proof fn lemma_not_above(root: Seq<Part>, q: Seq<Part>, p: Seq<Part>)
    requires
        q.len() < p.len(),
        p != root,
    ensures
        !crate::model::within(root, q, p),
    decreases crate::model::height(root, q),
{
    if q != root {
        let u = crate::model::up(root, q);
        if u == root {
            assert(!crate::model::within(root, root, p));
        } else {
            lemma_not_above(root, u, p);
        }
    }
}

} // verus!
